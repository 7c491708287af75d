use compress_pdf::config::{Config, Preset, Strip};
use compress_pdf::document::Pdf;
use compress_pdf::nameset::NameSet;
use compress_pdf::object::{DataStream, Dict, ObjectId, StringForm, Value};
use compress_pdf::report::Report;
use compress_pdf::strip::{strip, StripDocument};
use compress_pdf::structure::dedupe::{canonical, merge_duplicates, merge_pass};
use compress_pdf::structure::resources::{prune_default_resource_fonts, prune_unused};
use compress_pdf::structure::{bump_version, drop_dangling_references, CleanStructure};
use compress_pdf::usage::walker::Event;
use compress_pdf::usage::{appearance_fonts, AnalyzeUsage, ImageUsage};

fn dict(entries: Vec<(&str, Value)>) -> Dict {
    let mut d = Dict::new();
    for (k, v) in entries {
        d.set(k.as_bytes(), v);
    }
    d
}

fn dictionary(entries: Vec<(&str, Value)>) -> Value {
    Value::Dictionary(dict(entries))
}

fn stream(entries: Vec<(&str, Value)>, content: &[u8]) -> Value {
    let mut d = dict(entries);
    d.set(b"Length", Value::Integer(content.len() as i64));
    Value::Stream(DataStream {
        dict: d,
        content: content.to_vec(),
    })
}

fn name(n: &str) -> Value {
    Value::Name(n.as_bytes().to_vec())
}

fn whole(i: i64) -> Value {
    Value::Integer(i)
}

fn text(s: &str) -> Value {
    Value::String(s.as_bytes().to_vec(), StringForm::Literal)
}

fn to(id: ObjectId) -> Value {
    Value::Reference(id)
}

fn list(items: Vec<Value>) -> Value {
    Value::Array(items)
}

fn dict_mut(doc: &mut Pdf, id: ObjectId) -> &mut Dict {
    let at = doc.position(id).unwrap();
    match &mut doc.objects[at].1 {
        Value::Dictionary(d) => d,
        _ => panic!("not a dictionary"),
    }
}

// ------------------------------------------------------------------ strip

/// A document exercising every strippable key once.
fn loaded_doc() -> Pdf {
    let mut doc = Pdf::with_version("1.5");
    let meta = doc.add_object(stream(vec![("Type", name("Metadata"))], b"<x/>"));
    let thumb = doc.add_object(stream(vec![], &[0]));
    let image = doc.add_object(stream(
        vec![
            ("Type", name("XObject")),
            ("Subtype", name("Image")),
            ("Alternates", list(vec![])),
            ("StructParent", whole(3)),
        ],
        &[0],
    ));
    // Resource names that collide with strippable keys, as dvips writes
    // them; these dictionaries carry no /Type and must be left alone.
    let fonts = doc.add_object(dictionary(vec![
        (
            "B",
            dictionary(vec![
                ("Type", name("Font")),
                ("Subtype", name("Type3")),
                (
                    "CharProcs",
                    dictionary(vec![("Thumb", to(thumb)), ("Metadata", to(thumb))]),
                ),
            ]),
        ),
        ("Thumb", dictionary(vec![])),
    ]));
    let pages_id = doc.new_object_id();
    let page = doc.add_object(dictionary(vec![
        ("Type", name("Page")),
        ("Parent", to(pages_id)),
        ("B", list(vec![])),
        ("Thumb", to(thumb)),
        ("StructParents", whole(0)),
        ("PieceInfo", dictionary(vec![])),
        ("Metadata", to(meta)),
        (
            "Resources",
            dictionary(vec![
                ("XObject", dictionary(vec![("Im", to(image))])),
                ("Font", to(fonts)),
            ]),
        ),
    ]));
    doc.insert(
        pages_id,
        dictionary(vec![
            ("Type", name("Pages")),
            ("Kids", list(vec![to(page)])),
            ("Count", whole(1)),
        ]),
    );
    let catalog = doc.add_object(dictionary(vec![
        ("Type", name("Catalog")),
        ("Pages", to(pages_id)),
        ("Threads", list(vec![])),
        ("SpiderInfo", dictionary(vec![])),
        ("OutputIntents", list(vec![])),
        ("StructTreeRoot", dictionary(vec![])),
        ("MarkInfo", dictionary(vec![])),
        ("Metadata", to(meta)),
        ("PieceInfo", dictionary(vec![])),
    ]));
    doc.trailer.set(b"Root", to(catalog));
    doc
}

fn own_dict(v: &Value) -> Option<&Dict> {
    match v {
        Value::Dictionary(d) => Some(d),
        Value::Stream(s) => Some(&s.dict),
        _ => None,
    }
}

fn keys(doc: &Pdf, kind: &str) -> Vec<String> {
    let mut out: Vec<String> = doc
        .objects
        .iter()
        .filter_map(|(_, o)| own_dict(o))
        .filter(|d| d.get(b"Type").is_some_and(|t| t.is_name(kind)))
        .flat_map(|d| {
            d.entries
                .iter()
                .map(|(k, _)| String::from_utf8_lossy(k).into_owned())
        })
        .collect();
    out.sort();
    out
}

#[test]
fn resource_names_that_look_like_strippable_keys_survive() {
    let mut doc = loaded_doc();
    let before = doc.objects.len();
    strip(
        &mut doc,
        Strip::threads()
            | Strip::metadata()
            | Strip::piece_info()
            | Strip::struct_tree()
            | Strip::thumbnails()
            | Strip::alternates(),
    );
    assert_eq!(doc.objects.len(), before);
    let fonts = doc
        .objects
        .iter()
        .filter_map(|(_, o)| o.as_dict())
        .find(|d| d.has(b"B") && !d.has(b"Type"))
        .expect("font resources kept");
    assert!(fonts.has(b"Thumb"));
    let procs = fonts.get(b"B").unwrap().as_dict().unwrap();
    let procs = procs.get(b"CharProcs").unwrap().as_dict().unwrap();
    assert!(procs.has(b"Thumb") && procs.has(b"Metadata"));
}

#[test]
fn nothing_flagged_removes_nothing() {
    let mut doc = loaded_doc();
    assert_eq!(strip(&mut doc, Strip::none()), 0);
}

#[test]
fn each_flag_removes_only_its_keys() {
    let mut doc = loaded_doc();
    assert_eq!(strip(&mut doc, Strip::thumbnails()), 1);
    assert!(!keys(&doc, "Page").contains(&"Thumb".to_string()));
    assert!(keys(&doc, "Page").contains(&"B".to_string()));
    assert!(keys(&doc, "Catalog").contains(&"Threads".to_string()));
}

#[test]
fn standard_flags_strip_the_expected_set() {
    let mut doc = loaded_doc();
    let flags = Strip::threads()
        | Strip::metadata()
        | Strip::piece_info()
        | Strip::thumbnails()
        | Strip::spider()
        | Strip::alternates()
        | Strip::output_intents();
    strip(&mut doc, flags);
    assert_eq!(
        keys(&doc, "Catalog"),
        ["MarkInfo", "Pages", "StructTreeRoot", "Type"]
    );
    assert_eq!(
        keys(&doc, "Page"),
        ["Parent", "Resources", "StructParents", "Type"]
    );
    assert_eq!(
        keys(&doc, "XObject"),
        ["Length", "StructParent", "Subtype", "Type"]
    );
}

#[test]
fn struct_tree_flag_removes_tree_and_parent_links() {
    let mut doc = loaded_doc();
    strip(&mut doc, Strip::struct_tree());
    for k in [
        "StructTreeRoot",
        "MarkInfo",
        "StructParents",
        "StructParent",
    ] {
        let all = [
            keys(&doc, "Catalog"),
            keys(&doc, "Page"),
            keys(&doc, "XObject"),
        ]
        .concat();
        assert!(!all.contains(&k.to_string()), "{k} survived");
    }
}

#[test]
fn stripping_twice_changes_nothing_more() {
    let mut doc = loaded_doc();
    let flags = Strip::threads() | Strip::metadata() | Strip::struct_tree();
    assert!(strip(&mut doc, flags) > 0);
    assert_eq!(strip(&mut doc, flags), 0);
}

#[test]
fn annotations_and_forms_survive_every_flag() {
    let mut doc = Pdf::with_version("1.5");
    let page = doc.add_object(dictionary(vec![
        ("Type", name("Page")),
        ("Annots", list(vec![whole(1)])),
        ("Thumb", whole(2)),
        ("B", whole(3)),
    ]));
    let root = doc.add_object(dictionary(vec![
        ("Type", name("Catalog")),
        ("AcroForm", dictionary(vec![("Fields", list(vec![]))])),
        ("Metadata", whole(4)),
    ]));
    doc.trailer.set(b"Root", to(root));
    let flags = Strip::threads() | Strip::metadata() | Strip::struct_tree() | Strip::thumbnails();
    assert_eq!(strip(&mut doc, flags), 3);
    let kept = doc.get_dictionary(page).unwrap();
    assert_eq!(kept.get(b"Annots"), Some(&list(vec![whole(1)])));
    assert!(kept.get(b"Thumb").is_none());
    assert!(doc.get_dictionary(root).unwrap().get(b"AcroForm").is_some());
}

#[test]
fn the_strip_stage_counts_what_it_removed() {
    let mut doc = loaded_doc();
    let mut config = Config::preset(Preset::Less);
    config.strip = Strip::thumbnails();
    assert!(StripDocument.enabled(&config));
    let mut report = Report::new(0);
    StripDocument.run(&mut doc, &config, &mut report);
    assert_eq!(report.notes, ["strip: removed 1 entries (thumbnails)"]);
    config.strip = Strip::none();
    assert!(!StripDocument.enabled(&config));
}

// -------------------------------------------------------------- structure

fn doc_with_stream(version: &str, filter: &str) -> Pdf {
    let mut doc = Pdf::with_version(version);
    let id = doc.add_object(stream(vec![("Filter", name(filter))], &[0u8; 4]));
    doc.trailer.set(b"Root", to(id));
    doc
}

#[test]
fn dangling_references_are_dropped_before_renumbering() {
    let mut doc = Pdf::with_version("1.5");
    let missing = doc.new_object_id();
    let holder = doc.add_object(dictionary(vec![
        ("Next", to(missing)),
        ("Same", whole(1)),
        ("List", list(vec![to(missing), whole(2)])),
        ("Inner", dictionary(vec![("Deep", to(missing))])),
    ]));
    doc.trailer.set(b"Root", to(holder));
    assert_eq!(drop_dangling_references(&mut doc), 3);
    let found = doc.get_object(holder).unwrap().as_dict().unwrap();
    assert!(!found.has(b"Next"));
    let items = found.get(b"List").unwrap().as_array().unwrap();
    assert_eq!(items.len(), 1);
    assert_eq!(items[0].as_i64(), Some(2));
    assert!(!found.get(b"Inner").unwrap().as_dict().unwrap().has(b"Deep"));
    assert_eq!(drop_dangling_references(&mut doc), 0);
}

fn doc_with_form(xfa: bool, da: &str) -> (Pdf, ObjectId) {
    let mut doc = Pdf::with_version("1.5");
    let font = |base: &str| {
        dictionary(vec![
            ("Type", name("Font")),
            ("Subtype", name("Type1")),
            ("BaseFont", name(base)),
        ])
    };
    let f1 = doc.add_object(font("Helvetica"));
    let f2 = doc.add_object(font("Courier"));
    let fonts = doc.add_object(dictionary(vec![("Helv", to(f1)), ("Cour", to(f2))]));
    let field = doc.add_object(dictionary(vec![("T", text("x")), ("DA", text(da))]));
    let mut acro = dict(vec![
        ("Fields", list(vec![to(field)])),
        ("DR", dictionary(vec![("Font", to(fonts))])),
    ]);
    if xfa {
        acro.set(b"XFA", text("<xdp/>"));
    }
    let catalog = doc.add_object(dictionary(vec![
        ("Type", name("Catalog")),
        ("AcroForm", Value::Dictionary(acro)),
    ]));
    doc.trailer.set(b"Root", to(catalog));
    (doc, fonts)
}

#[test]
fn default_resource_fonts_no_appearance_names_are_dropped() {
    let (mut doc, fonts) = doc_with_form(false, "/Helv 12 Tf 0 g");
    let mut used = NameSet::new();
    used.insert(b"Helv");
    assert_eq!(prune_default_resource_fonts(&mut doc, &used), 1);
    let found = doc.get_dictionary(fonts).unwrap();
    assert!(found.has(b"Helv") && !found.has(b"Cour"));
    // An XFA form may pick fonts by name: nothing is dropped.
    let (mut doc, fonts) = doc_with_form(true, "/Helv 12 Tf 0 g");
    assert_eq!(prune_default_resource_fonts(&mut doc, &used), 0);
    assert!(doc.get_dictionary(fonts).unwrap().has(b"Cour"));
}

#[test]
fn appearance_strings_name_their_fonts() {
    let (doc, _) = doc_with_form(false, "/Helv 12 Tf 0 g");
    let used = appearance_fonts(&doc).unwrap();
    assert_eq!(used.names, [b"Helv".to_vec()]);
}

#[test]
fn jbig2_needs_1_4() {
    let mut doc = doc_with_stream("1.3", "JBIG2Decode");
    bump_version(&mut doc);
    assert_eq!(doc.version, "1.4");
}

#[test]
fn version_is_never_lowered() {
    let mut doc = doc_with_stream("1.7", "JBIG2Decode");
    bump_version(&mut doc);
    assert_eq!(doc.version, "1.7");
    let mut doc = doc_with_stream("1.3", "FlateDecode");
    bump_version(&mut doc);
    assert_eq!(doc.version, "1.3");
}

#[test]
fn the_cleanup_drops_merges_and_renumbers() {
    let (mut doc, _) = doc_with_form(false, "/Helv 12 Tf 0 g");
    let missing = doc.new_object_id();
    let orphan = doc.add_object(stream(vec![], b"nobody points here"));
    let big = doc.add_object(stream(vec![], &b"abcdefgh".repeat(100)));
    let root = doc.root().unwrap();
    dict_mut(&mut doc, root).set(b"Gone", to(missing));
    dict_mut(&mut doc, root).set(b"Big", to(big));
    let count = doc.objects.len();
    let config = Config::preset(Preset::Standard);
    let mut report = Report::new(0);
    CleanStructure.run(&mut doc, &config, &mut report);
    assert_eq!(
        report.notes,
        [
            "structure: removed 1 unused resource entries",
            "structure: 1 references to missing objects removed",
        ]
    );
    // The orphan and the font that nothing names are gone.
    assert_eq!(doc.objects.len(), count - 2);
    let numbers: Vec<u32> = doc.objects.iter().map(|(id, _)| id.0).collect();
    let expected: Vec<u32> = (1..=doc.objects.len() as u32).collect();
    assert_eq!(numbers, expected);
    assert_eq!(doc.max_id as usize, doc.objects.len());
    let packed = doc
        .objects
        .iter()
        .filter_map(|(_, o)| o.as_stream())
        .find(|s| s.dict.has(b"Filter"))
        .expect("the large stream is compressed");
    assert!(packed.content.len() < 800);
    let _ = orphan;
}

// ----------------------------------------------------------------- dedupe

#[test]
fn identical_streams_are_merged_and_references_repointed() {
    let mut doc = Pdf::with_version("1.5");
    let a = doc.add_object(stream(vec![], b"abc"));
    let b = doc.add_object(stream(vec![], b"abc"));
    let holder = doc.add_object(dictionary(vec![("First", to(a)), ("Second", to(b))]));
    doc.trailer.set(b"Root", to(holder));

    assert_eq!(merge_duplicates(&mut doc), 1);
    let found = doc.get_dictionary(holder).unwrap();
    let first = found.get(b"First").unwrap().as_reference().unwrap();
    let second = found.get(b"Second").unwrap().as_reference().unwrap();
    assert_eq!(first, second);
    assert!(doc.get_object(first).is_some());
}

#[test]
fn one_pass_leaves_no_reference_to_what_went() {
    let mut doc = Pdf::with_version("1.5");
    let a = doc.add_object(stream(vec![], b"abc"));
    let b = doc.add_object(stream(vec![], b"abc"));
    let inner = doc.add_object(list(vec![to(b), dictionary(vec![("Deep", to(b))])]));
    let root = doc.add_object(dictionary(vec![("Items", to(inner))]));
    doc.trailer.set(b"Root", to(root));
    assert_eq!(merge_pass(&mut doc), 1);
    assert!(doc.get_object(b).is_none());
    let turned = list(vec![to(a), dictionary(vec![("Deep", to(a))])]);
    assert_eq!(doc.get_object(inner), Some(&turned));
    assert_eq!(merge_pass(&mut doc), 0);
}

#[test]
fn merging_goes_on_until_nothing_is_left() {
    let mut doc = Pdf::with_version("1.5");
    let mut a = doc.add_object(stream(vec![], b"x"));
    let mut b = doc.add_object(stream(vec![], b"x"));
    for _ in 0..12 {
        a = doc.add_object(dictionary(vec![("Next", to(a))]));
        b = doc.add_object(dictionary(vec![("Next", to(b))]));
    }
    let root = doc.add_object(dictionary(vec![("A", to(a)), ("B", to(b))]));
    doc.trailer.set(b"Root", to(root));
    assert_eq!(merge_duplicates(&mut doc), 13);
    assert_eq!(doc.objects.len(), 14);
    assert_eq!(merge_duplicates(&mut doc), 0);
}

#[test]
fn pages_and_tree_members_are_never_merged() {
    let mut doc = Pdf::with_version("1.5");
    let p1 = doc.add_object(dictionary(vec![("Type", name("Page"))]));
    let p2 = doc.add_object(dictionary(vec![("Type", name("Page"))]));
    let parent = doc.add_object(dictionary(vec![("Kids", list(vec![to(p1), to(p2)]))]));
    let field = || dictionary(vec![("T", name("x")), ("Parent", to(parent))]);
    let f1 = doc.add_object(field());
    let f2 = doc.add_object(field());
    doc.trailer.set(b"Root", to(parent));
    doc.trailer.set(b"Fields", list(vec![to(f1), to(f2)]));
    assert_eq!(merge_duplicates(&mut doc), 0);
}

#[test]
fn second_pass_merges_dictionaries_that_became_identical() {
    let mut doc = Pdf::with_version("1.5");
    let s1 = doc.add_object(stream(vec![], b"x"));
    let s2 = doc.add_object(stream(vec![], b"x"));
    let d1 = doc.add_object(dictionary(vec![("Stream", to(s1))]));
    let d2 = doc.add_object(dictionary(vec![("Stream", to(s2))]));
    let root = doc.add_object(dictionary(vec![("A", to(d1)), ("B", to(d2))]));
    doc.trailer.set(b"Root", to(root));
    assert_eq!(merge_duplicates(&mut doc), 2);
    assert_eq!(doc.objects.len(), 3);
}

#[test]
fn different_content_is_kept_apart() {
    let mut doc = Pdf::with_version("1.5");
    let a = doc.add_object(stream(vec![], b"abc"));
    let b = doc.add_object(stream(vec![], b"abd"));
    let root = doc.add_object(dictionary(vec![("A", to(a)), ("B", to(b))]));
    doc.trailer.set(b"Root", to(root));
    assert_eq!(merge_duplicates(&mut doc), 0);
}

#[test]
fn the_canonical_form_ignores_the_order_of_keys() {
    let one = dictionary(vec![("A", whole(1)), ("B", name("x"))]);
    let two = dictionary(vec![("B", name("x")), ("A", whole(1))]);
    assert_eq!(canonical(&one), canonical(&two));
    let other = dictionary(vec![("A", whole(1)), ("B", text("x"))]);
    assert_ne!(canonical(&one), canonical(&other));
}

// -------------------------------------------------------------- resources

/// One page whose content is `content`, with inline resources holding
/// fonts F1 and F2 and XObjects Im1 and Im2. Returns (doc, page id).
fn page_doc(content: &[u8]) -> (Pdf, ObjectId) {
    let mut doc = Pdf::with_version("1.5");
    let font = || {
        dictionary(vec![
            ("Type", name("Font")),
            ("Subtype", name("Type1")),
            ("BaseFont", name("Helvetica")),
        ])
    };
    let f1 = doc.add_object(font());
    let f2 = doc.add_object(font());
    let image = || {
        stream(
            vec![
                ("Type", name("XObject")),
                ("Subtype", name("Image")),
                ("Width", whole(1)),
                ("Height", whole(1)),
                ("ColorSpace", name("DeviceGray")),
                ("BitsPerComponent", whole(8)),
            ],
            &[0],
        )
    };
    let im1 = doc.add_object(image());
    let im2 = doc.add_object(image());
    let contents = doc.add_object(stream(vec![], content));
    let pages_id = doc.new_object_id();
    let page = doc.add_object(dictionary(vec![
        ("Type", name("Page")),
        ("Parent", to(pages_id)),
        ("Contents", to(contents)),
        (
            "Resources",
            dictionary(vec![
                ("Font", dictionary(vec![("F1", to(f1)), ("F2", to(f2))])),
                ("XObject", dictionary(vec![("Im1", to(im1)), ("Im2", to(im2))])),
            ]),
        ),
    ]));
    doc.insert(
        pages_id,
        dictionary(vec![
            ("Type", name("Pages")),
            ("Kids", list(vec![to(page)])),
            ("Count", whole(1)),
        ]),
    );
    let catalog = doc.add_object(dictionary(vec![
        ("Type", name("Catalog")),
        ("Pages", to(pages_id)),
    ]));
    doc.trailer.set(b"Root", to(catalog));
    (doc, page)
}

fn resource_names(doc: &Pdf, page: ObjectId, category: &str) -> Vec<String> {
    let page = doc.get_dictionary(page).unwrap();
    let res = page.get(b"Resources").unwrap().as_dict().unwrap();
    let mut names: Vec<String> = res
        .get(category.as_bytes())
        .unwrap()
        .as_dict()
        .unwrap()
        .entries
        .iter()
        .map(|(k, _)| String::from_utf8_lossy(k).into_owned())
        .collect();
    names.sort();
    names
}

#[test]
fn unused_entries_are_removed() {
    let (mut doc, page) = page_doc(b"BT /F1 12 Tf (x) Tj ET q /Im2 Do Q");
    assert_eq!(prune_unused(&mut doc), 2);
    assert_eq!(resource_names(&doc, page, "Font"), ["F1"]);
    assert_eq!(resource_names(&doc, page, "XObject"), ["Im2"]);
}

#[test]
fn nothing_used_removes_everything_in_touched_categories() {
    let (mut doc, page) = page_doc(b"0 0 m 1 1 l S");
    assert_eq!(prune_unused(&mut doc), 4);
    assert!(resource_names(&doc, page, "Font").is_empty());
}

#[test]
fn inline_image_keeps_color_spaces_whole() {
    let (mut doc, page) = page_doc(b"BI /W 1 /H 1 /CS /CS0 /BPC 8 ID \x00 EI /F1 1 Tf");
    let spaces = dictionary(vec![
        ("CS0", name("DeviceGray")),
        ("CS1", name("DeviceRGB")),
    ]);
    let at = dict_mut(&mut doc, page).position(b"Resources");
    match &mut dict_mut(&mut doc, page).entries[at].1 {
        Value::Dictionary(res) => res.set(b"ColorSpace", spaces),
        _ => panic!("no resources"),
    }
    prune_unused(&mut doc);
    assert_eq!(resource_names(&doc, page, "ColorSpace"), ["CS0", "CS1"]);
}

#[test]
fn inherited_resources_are_left_alone() {
    let (mut doc, page) = page_doc(b"/F1 1 Tf");
    // Move the resources up to the Pages node, as an indirect object.
    let res = dict_mut(&mut doc, page).remove(b"Resources").unwrap();
    let res_id = doc.add_object(res);
    let pages_id = doc
        .get_dictionary(page)
        .unwrap()
        .get(b"Parent")
        .unwrap()
        .as_reference()
        .unwrap();
    dict_mut(&mut doc, pages_id).set(b"Resources", to(res_id));
    assert_eq!(prune_unused(&mut doc), 0);
}

// ------------------------------------------------------------------ usage

/// One page, 200x200 pt, with a 600x300 pixel image `Im1` and the given
/// content. Returns (doc, image id, page id).
fn doc_with_image(content: &[u8]) -> (Pdf, ObjectId, ObjectId) {
    let mut doc = Pdf::with_version("1.5");
    let image = doc.add_object(stream(
        vec![
            ("Type", name("XObject")),
            ("Subtype", name("Image")),
            ("Width", whole(600)),
            ("Height", whole(300)),
            ("ColorSpace", name("DeviceGray")),
            ("BitsPerComponent", whole(8)),
        ],
        &[0],
    ));
    let contents = doc.add_object(stream(vec![], content));
    let pages_id = doc.new_object_id();
    let page = doc.add_object(dictionary(vec![
        ("Type", name("Page")),
        ("Parent", to(pages_id)),
        ("Contents", to(contents)),
        ("MediaBox", list(vec![whole(0), whole(0), whole(200), whole(200)])),
        (
            "Resources",
            dictionary(vec![("XObject", dictionary(vec![("Im1", to(image))]))]),
        ),
    ]));
    doc.insert(
        pages_id,
        dictionary(vec![
            ("Type", name("Pages")),
            ("Kids", list(vec![to(page)])),
            ("Count", whole(1)),
        ]),
    );
    let catalog = doc.add_object(dictionary(vec![
        ("Type", name("Catalog")),
        ("Pages", to(pages_id)),
    ]));
    doc.trailer.set(b"Root", to(catalog));
    (doc, image, page)
}

fn shown(usage: &ImageUsage, id: ObjectId) -> Vec<Vec<u8>> {
    usage
        .fonts
        .iter()
        .find(|(font, _)| *font == id)
        .map(|(_, u)| u.strings.names.clone())
        .unwrap_or_default()
}

#[test]
fn strings_are_recorded_per_font_through_q_and_forms() {
    let (mut doc, _image, page) = doc_with_image(
        b"BT /F1 12 Tf (ab) Tj q /F2 10 Tf [(c) -20 (d)] TJ Q (e) ' ET q /Fm1 Do Q",
    );
    let font = |base: &str| {
        dictionary(vec![
            ("Type", name("Font")),
            ("Subtype", name("Type1")),
            ("BaseFont", name(base)),
        ])
    };
    let f1 = doc.add_object(font("Helvetica"));
    let f2 = doc.add_object(font("Courier"));
    let form = doc.add_object(stream(
        vec![
            ("Type", name("XObject")),
            ("Subtype", name("Form")),
            ("BBox", list(vec![whole(0), whole(0), whole(100), whole(100)])),
            (
                "Resources",
                dictionary(vec![("Font", dictionary(vec![("F1", to(f2))]))]),
            ),
        ],
        b"BT /F1 8 Tf (z) Tj ET",
    ));
    dict_mut(&mut doc, page).set(
        b"Resources",
        dictionary(vec![
            ("Font", dictionary(vec![("F1", to(f1)), ("F2", to(f2))])),
            ("XObject", dictionary(vec![("Fm1", to(form))])),
        ]),
    );
    let usage = AnalyzeUsage.run(&doc);
    // After Q the font reverts to F1, so "e" belongs to it; inside the
    // form the name F1 resolves to the form's own F2.
    assert_eq!(shown(&usage, f1), vec![b"ab".to_vec(), b"e".to_vec()]);
    assert_eq!(
        shown(&usage, f2),
        vec![b"c".to_vec(), b"d".to_vec(), b"z".to_vec()]
    );
}

fn placed(usage: &ImageUsage, id: ObjectId) -> usize {
    usage
        .events
        .iter()
        .filter(|e| matches!(e, Event::Place { image, .. } if *image == id))
        .count()
}

#[test]
fn every_placement_is_met() {
    let (doc, image, _) =
        doc_with_image(b"q 144 0 0 72 0 0 cm /Im1 Do Q q 288 0 0 144 0 0 cm /Im1 Do Q");
    let usage = AnalyzeUsage.run(&doc);
    assert_eq!(placed(&usage, image), 2);
    let saves = usage
        .events
        .iter()
        .filter(|e| matches!(e, Event::Save))
        .count();
    let restores = usage
        .events
        .iter()
        .filter(|e| matches!(e, Event::Restore))
        .count();
    assert_eq!((saves, restores), (2, 2));
}

#[test]
fn undrawn_images_get_no_entry() {
    let (doc, image, _) = doc_with_image(b"0 0 m 10 10 l S");
    let usage = AnalyzeUsage.run(&doc);
    assert_eq!(placed(&usage, image), 0);
}

#[test]
fn analysis_is_on_where_something_needs_it() {
    for preset in [Preset::Less, Preset::Standard, Preset::More] {
        assert!(AnalyzeUsage.enabled(&Config::preset(preset)));
    }
    assert_eq!(AnalyzeUsage.name(), "usage");
}
