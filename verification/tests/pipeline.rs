use compress_pdf::cli::{
    config, log_levels, output_place, ColorArg, OutputPlace, PresetArg, VerifyArg,
};
use compress_pdf::compress::{
    check_render, compress, compress_loaded, judge_structure, load, Rendered, Verify,
};
use compress_pdf::config::{Codecs, ColorConversion, Config, Overrides, Preset, Strip};
use compress_pdf::document::Pdf;
use compress_pdf::error::Refusal;
use compress_pdf::object::{DataStream, Dict, ObjectId, StringForm, Value};
use compress_pdf::pages::check_counts;
use compress_pdf::pipeline::{
    choose_output, default_stages, hex_binary_strings, normalize_filters, page_tree_is_intact,
    resources_are_intact, run, serialize,
};
use compress_pdf::report::{FontRow, ImageRow, Report, StageSummary};
use compress_pdf::single::Single;
use compress_pdf::verify::render::{floor, halve, to_gray, Comparison, Gray};
use compress_pdf::verify::{
    categorize, check, find_plan, verify, Category, Reading, StreamFacts, Verification,
};
use lopdf::encryption::crypt_filters::{Aes128CryptFilter, CryptFilter};
use lopdf::encryption::{EncryptionState, EncryptionVersion, Permissions};
use lopdf::{Document, Object};
use std::collections::BTreeMap;
use std::sync::Arc;

fn dict(entries: Vec<(&str, Value)>) -> Dict {
    let mut d = Dict::new();
    for (k, v) in entries {
        d.set(k.as_bytes(), v);
    }
    d
}

fn dictionary(entries: Vec<(&str, Value)>) -> Value {
    Value::Dictionary(dict(entries))
}

fn name(n: &str) -> Value {
    Value::Name(n.as_bytes().to_vec())
}

fn whole(i: i64) -> Value {
    Value::Integer(i)
}

fn to(id: ObjectId) -> Value {
    Value::Reference(id)
}

fn list(items: Vec<Value>) -> Value {
    Value::Array(items)
}

fn dict_mut(doc: &mut Pdf, id: ObjectId) -> &mut Dict {
    let at = doc.position(id).unwrap();
    match &mut doc.objects[at].1 {
        Value::Dictionary(d) => d,
        _ => panic!("not a dictionary"),
    }
}

fn stream_mut(doc: &mut Pdf, id: ObjectId) -> &mut DataStream {
    let at = doc.position(id).unwrap();
    match &mut doc.objects[at].1 {
        Value::Stream(s) => s,
        _ => panic!("not a stream"),
    }
}

fn standard() -> Config {
    Config::preset(Preset::Standard)
}

/// One page, and where asked for a second kid that is missing. Returns the
/// document and the page.
fn doc_with_kids(missing_kid: bool) -> (Pdf, ObjectId) {
    let mut doc = Pdf::with_version("1.5");
    let pages_id = doc.new_object_id();
    let page = doc.add_object(dictionary(vec![
        ("Type", name("Page")),
        ("Parent", to(pages_id)),
    ]));
    let mut kids = vec![to(page)];
    if missing_kid {
        kids.push(to(doc.new_object_id()));
    }
    doc.insert(
        pages_id,
        dictionary(vec![
            ("Type", name("Pages")),
            ("Kids", list(kids)),
            ("Count", whole(2)),
        ]),
    );
    let catalog = doc.add_object(dictionary(vec![
        ("Type", name("Catalog")),
        ("Pages", to(pages_id)),
    ]));
    doc.trailer.set(b"Root", to(catalog));
    (doc, page)
}

// --------------------------------------------------------------- pipeline

#[test]
fn missing_kids_are_refused() {
    assert!(page_tree_is_intact(&doc_with_kids(false).0));
    let (mut doc, _) = doc_with_kids(true);
    assert!(!page_tree_is_intact(&doc));
    let mut report = Report::new(0);
    let err = run(&mut doc, &standard(), &mut report).unwrap_err();
    assert!(matches!(err, Refusal::DamagedPageTree));
}

#[test]
fn unloaded_content_or_resources_are_refused() {
    let (mut doc, page) = doc_with_kids(false);
    assert!(resources_are_intact(&doc));
    let missing = doc.new_object_id();
    dict_mut(&mut doc, page).set(
        b"Resources",
        dictionary(vec![("Font", dictionary(vec![("F1", to(missing))]))]),
    );
    assert!(!resources_are_intact(&doc));
    dict_mut(&mut doc, page).set(
        b"Resources",
        dictionary(vec![("Font", dictionary(vec![]))]),
    );
    assert!(resources_are_intact(&doc));
    dict_mut(&mut doc, page).set(b"Contents", list(vec![to(missing)]));
    assert!(!resources_are_intact(&doc));
    // A stream the parser read as empty for lack of a Length.
    let empty = doc.add_object(Value::Stream(DataStream {
        dict: Dict::new(),
        content: Vec::new(),
    }));
    dict_mut(&mut doc, page).set(b"Contents", to(empty));
    assert!(!resources_are_intact(&doc));
    let mut report = Report::new(0);
    let err = run(&mut doc, &standard(), &mut report).unwrap_err();
    assert!(matches!(err, Refusal::DamagedResources));
    stream_mut(&mut doc, empty).dict.set(b"Length", whole(0));
    assert!(resources_are_intact(&doc));
}

fn lopdf_dict(entries: Vec<(&str, Object)>) -> lopdf::Dictionary {
    let mut d = lopdf::Dictionary::new();
    for (k, v) in entries {
        d.set(k, v);
    }
    d
}

fn lopdf_name(n: &str) -> Object {
    Object::Name(n.as_bytes().to_vec())
}

fn one_page() -> Document {
    let mut doc = Document::with_version("1.5");
    let pages_id = doc.new_object_id();
    let page = doc.add_object(lopdf_dict(vec![
        ("Type", lopdf_name("Page")),
        ("Parent", pages_id.into()),
    ]));
    doc.objects.insert(
        pages_id,
        Object::Dictionary(lopdf_dict(vec![
            ("Type", lopdf_name("Pages")),
            ("Kids", Object::Array(vec![page.into()])),
            ("Count", 2.into()),
        ])),
    );
    let catalog = doc.add_object(lopdf_dict(vec![
        ("Type", lopdf_name("Catalog")),
        ("Pages", pages_id.into()),
    ]));
    doc.trailer.set("Root", catalog);
    let id = Object::string_literal("id");
    doc.trailer.set("ID", Object::Array(vec![id.clone(), id]));
    doc
}

fn saved(doc: &mut Document) -> Vec<u8> {
    let mut bytes = Vec::new();
    doc.save_to(&mut bytes).unwrap();
    bytes
}

/// A one-page document saved encrypted with `user_password`, loaded back.
fn encrypted_doc(user_password: &str) -> Pdf {
    let mut doc = one_page();
    let version = EncryptionVersion::V2 {
        document: &doc,
        owner_password: "owner",
        user_password,
        key_length: 128,
        permissions: Permissions::PRINTABLE,
    };
    let state = EncryptionState::try_from(version).unwrap();
    doc.encrypt(&state).unwrap();
    load(&saved(&mut doc)).unwrap()
}

/// AES-128 with crypt filters, which the parser can read only when inline.
fn aes_doc(indirect_filters: bool) -> Pdf {
    let mut doc = one_page();
    let filter: Arc<dyn CryptFilter> = Arc::new(Aes128CryptFilter);
    let version = EncryptionVersion::V4 {
        document: &doc,
        encrypt_metadata: true,
        crypt_filters: BTreeMap::from([(b"StdCF".to_vec(), filter)]),
        stream_filter: b"StdCF".to_vec(),
        string_filter: b"StdCF".to_vec(),
        owner_password: "owner",
        user_password: "",
        permissions: Permissions::PRINTABLE,
    };
    let state = EncryptionState::try_from(version).unwrap();
    doc.encrypt(&state).unwrap();
    if indirect_filters {
        let encrypt = doc.trailer.get(b"Encrypt").unwrap().as_reference().unwrap();
        let filters = doc
            .get_dictionary(encrypt)
            .unwrap()
            .get(b"CF")
            .unwrap()
            .clone();
        let filters = doc.add_object(filters);
        doc.get_dictionary_mut(encrypt).unwrap().set("CF", filters);
    }
    load(&saved(&mut doc)).unwrap()
}

#[test]
fn crypt_filters_lopdf_could_not_read_are_refused() {
    let mut inline = aes_doc(false);
    run(&mut inline, &standard(), &mut Report::new(0)).unwrap();
    let mut indirect = aes_doc(true);
    let err = run(&mut indirect, &standard(), &mut Report::new(0)).unwrap_err();
    assert!(matches!(err, Refusal::UndecryptedCryptFilters));
}

#[test]
fn encryption_is_removed_only_when_no_password_is_needed() {
    let mut open = encrypted_doc("");
    let mut report = Report::new(0);
    run(&mut open, &standard(), &mut report).unwrap();
    assert!(!open.trailer.has(b"Encrypt"));
    assert!(report
        .notes
        .iter()
        .any(|n| n.contains("written unencrypted")));
    let mut locked = encrypted_doc("secret");
    let err = run(&mut locked, &standard(), &mut Report::new(0)).unwrap_err();
    assert!(matches!(err, Refusal::PasswordRequired));
}

#[test]
fn binary_strings_are_written_in_hexadecimal() {
    let mut doc = Pdf::with_version("1.5");
    let palette = Value::String(vec![0xff, 0x0d, b'(', b')', 0x28], StringForm::Literal);
    let text = Value::String(b"Hello (world)".to_vec(), StringForm::Literal);
    let id = doc.add_object(dictionary(vec![("Lookup", list(vec![palette, text]))]));
    doc.trailer.set(
        b"ID",
        list(vec![Value::String(vec![0x00, 0x01], StringForm::Literal)]),
    );
    hex_binary_strings(&mut doc);
    let found = doc.get_dictionary(id).unwrap();
    let items = found.get(b"Lookup").unwrap().as_array().unwrap();
    assert!(matches!(
        items[0],
        Value::String(_, StringForm::Hexadecimal)
    ));
    assert!(matches!(items[1], Value::String(_, StringForm::Literal)));
    let ids = doc.trailer.get(b"ID").unwrap().as_array().unwrap();
    assert!(matches!(ids[0], Value::String(_, StringForm::Hexadecimal)));
}

#[test]
fn empty_filter_arrays_are_dropped() {
    let (mut doc, _) = doc_with_kids(false);
    let id = doc.add_object(Value::Stream(DataStream {
        dict: dict(vec![
            ("Filter", list(vec![])),
            ("DecodeParms", dictionary(vec![])),
        ]),
        content: b"q Q".to_vec(),
    }));
    normalize_filters(&mut doc);
    let s = stream_mut(&mut doc, id);
    assert!(!s.dict.has(b"Filter") && !s.dict.has(b"DecodeParms"));
    assert_eq!(s.content, b"q Q");
}

#[test]
fn stages_run_in_their_order_and_are_measured() {
    let (mut doc, _) = doc_with_kids(false);
    let mut report = Report::new(0);
    run(&mut doc, &standard(), &mut report).unwrap();
    let names: Vec<&str> = report.stages.iter().map(|s| s.name).collect();
    assert_eq!(names, ["usage", "images", "fonts", "strip", "structure"]);
    assert_eq!(default_stages().len(), 5);
    for pair in report.stages.windows(2) {
        assert_eq!(pair[0].bytes_after, pair[1].bytes_before);
    }
    assert_eq!(
        report.notes,
        [
            "image recompression not implemented",
            "font optimization not implemented",
        ]
    );
}

#[test]
fn a_skipped_stage_has_a_row_without_change() {
    let (mut doc, _) = doc_with_kids(false);
    let mut config = standard();
    config.strip = Strip::none();
    let mut report = Report::new(0);
    run(&mut doc, &config, &mut report).unwrap();
    let names: Vec<&str> = report.stages.iter().map(|s| s.name).collect();
    assert_eq!(names, ["usage", "images", "fonts", "strip", "structure"]);
    let strip = &report.stages[3];
    assert_eq!(strip.bytes_before, strip.bytes_after);
    assert_eq!(strip.elapsed, 0);
}

#[test]
fn boundless_page_counts_are_not_believed() {
    let (mut doc, page) = doc_with_kids(false);
    assert!(check_counts(&doc));
    let node = doc.add_object(dictionary(vec![
        ("Type", name("Pages")),
        ("Count", Value::Integer(4_611_686_018_427_387_904)),
        ("Kids", list(vec![])),
    ]));
    let tree = doc.add_object(dictionary(vec![
        ("Type", name("Pages")),
        ("Kids", list(vec![to(page), to(node)])),
        ("Count", whole(1)),
    ]));
    let catalog = doc.add_object(dictionary(vec![
        ("Type", name("Catalog")),
        ("Pages", to(tree)),
    ]));
    doc.trailer.set(b"Root", to(catalog));
    assert!(!check_counts(&doc));
    let mut report = Report::new(0);
    run(&mut doc, &standard(), &mut report).unwrap();
    assert_eq!(report.stages.len(), 5);
}

#[test]
fn the_output_never_grows() {
    let input = vec![7u8; 10];
    let mut report = Report::new(10);
    let out = choose_output(vec![1; 8], vec![2; 7], &input, &mut report);
    assert_eq!(out, vec![2; 7]);
    assert_eq!(report.output_bytes, 7);
    assert_eq!(
        report.notes,
        ["classic xref table was smaller than an xref stream"]
    );
    let mut report = Report::new(10);
    let out = choose_output(vec![1; 12], vec![2; 12], &input, &mut report);
    assert_eq!(out, input);
    assert_eq!(report.output_bytes, 10);
    assert_eq!(
        report.notes,
        ["no stage produced a smaller file (12 vs 10 bytes); output is the input unchanged"]
    );
}

#[test]
fn a_written_document_loads_again() {
    let (mut doc, _) = doc_with_kids(false);
    let mut report = Report::new(100_000);
    let input = vec![b' '; 100_000];
    let out = serialize(&mut doc, &input, &mut report).unwrap();
    assert!(out.starts_with(b"%PDF-1."));
    let back = load(&out).unwrap();
    let pages = back.catalog().unwrap().get(b"Pages").unwrap();
    assert!(pages.as_reference().is_some());
}

// ----------------------------------------------------------------- verify

fn page_with(content: &[u8], media: bool) -> Vec<u8> {
    let mut doc = Document::with_version("1.5");
    let pages_id = doc.new_object_id();
    let contents = doc.add_object(lopdf::Stream::new(
        lopdf::Dictionary::new(),
        content.to_vec(),
    ));
    let mut entries = vec![
        ("Type", lopdf_name("Page")),
        ("Parent", pages_id.into()),
        ("Contents", contents.into()),
    ];
    if media {
        let corners = vec![0.into(), 0.into(), 200.into(), 200.into()];
        entries.push(("MediaBox", Object::Array(corners)));
    }
    let page = doc.add_object(lopdf_dict(entries));
    doc.objects.insert(
        pages_id,
        Object::Dictionary(lopdf_dict(vec![
            ("Type", lopdf_name("Pages")),
            ("Kids", Object::Array(vec![page.into()])),
            ("Count", 1.into()),
        ])),
    );
    let catalog = doc.add_object(lopdf_dict(vec![
        ("Type", lopdf_name("Catalog")),
        ("Pages", pages_id.into()),
    ]));
    doc.trailer.set("Root", catalog);
    saved(&mut doc)
}

#[test]
fn garbage_does_not_verify() {
    let v = verify(&b"not a pdf at all".to_vec(), 1);
    assert!(!v.is_ok());
    assert!(
        v.problems[0].contains("does not parse"),
        "{}",
        v.to_text()
    );
}

#[test]
fn minimal_document_verifies() {
    let bytes = page_with(b"0 0 m 10 10 l S", true);
    let v = verify(&bytes, 1);
    assert!(v.is_ok(), "{}", v.to_text());
    assert_eq!(v.pages, 1);
    assert!(!verify(&bytes, 2).is_ok());
}

#[test]
fn new_problems_regress_and_old_ones_do_not() {
    let mut v = Verification::new();
    v.problems.push("page count is 1, expected 2".to_string());
    let mut clean = Verification::new();
    assert_eq!(v.regressions_from(&clean).len(), 1);
    assert!(v.regressions_from(&v).is_empty());
    assert!(clean.regressions_from(&v).is_empty());
    let mut report = Report::new(0);
    clean.problems.push("page count is 3, expected 2".to_string());
    assert!(judge_structure(v, &clean, &mut report).is_ok());
    assert_eq!(
        report.notes[1],
        "warning: the input already had these problems; output written anyway"
    );
    let mut worse = Verification::new();
    worse.problems.push("file does not parse".to_string());
    let err = judge_structure(worse, &clean, &mut report).unwrap_err();
    // The input's count comes first, then the output's.
    let Refusal::VerificationRegressed(list) = &err else {
        panic!("not a regression");
    };
    assert_eq!(list.len(), 1);
    assert_eq!((list[0].1, list[0].2), (0, 1));
    assert!(err.to_text().starts_with("output failed verification"));
}

#[test]
fn problems_fall_into_categories() {
    let of = |s: &str| categorize(&s.to_string());
    assert!(of("output does not parse: x") == Category::Parse);
}

#[test]
fn scores_are_held_against_the_floor() {
    let scores = vec![
        Some(Single {
            bits: 0.99f32.to_bits(),
        }),
        Some(Single {
            bits: 0.5f32.to_bits(),
        }),
        None,
    ];
    let c = Comparison::of_scores(&scores, Preset::Standard);
    assert_eq!(floor(Preset::Standard).bits, 0.93f32.to_bits());
    let below: Vec<usize> = c.below_floor().iter().map(|p| p.page).collect();
    assert_eq!(below, [1, 2]);
    assert_eq!(c.min().unwrap().bits, 0.0f32.to_bits());
}

#[test]
fn rendered_pages_are_judged() {
    let bad = || Rendered {
        comparison: Comparison::of_scores(&vec![None], Preset::Less),
        text: "render: 1 page".to_string(),
    };
    let mut report = Report::new(0);
    let err = check_render(Ok(bad()), true, &mut report).unwrap_err();
    assert!(matches!(err, Refusal::BelowSimilarityFloor(_)));
    assert_eq!(report.notes, ["render: 1 page"]);
    let mut report = Report::new(0);
    assert!(check_render(Ok(bad()), false, &mut report).unwrap().is_some());
    assert_eq!(
        report.notes[1],
        "warning: pages below the similarity floor; output written anyway"
    );
    let mut report = Report::new(0);
    assert!(check_render(Err("no".to_string()), true, &mut report)
        .unwrap()
        .is_none());
    assert_eq!(report.notes, ["render: skipped, no"]);
}

#[test]
fn gray_is_weighed_and_halved() {
    assert_eq!(to_gray(&vec![255, 255, 255, 255, 0, 0, 0, 255]), [255, 0]);
    let g = Gray {
        width: 2,
        height: 2,
        data: vec![0, 100, 100, 200],
    };
    let h = halve(&g);
    assert_eq!((h.width, h.height), (1, 1));
    assert_eq!(h.data, [100]);
}

// --------------------------------------------------------------- compress

#[test]
fn compresses_and_verifies_a_small_document() {
    let input = page_with(&b"0 0 1 rg 10 10 100 100 re f\n".repeat(200), true);
    let check = Verify::Render {
        preset: Preset::Standard,
        strict: true,
    };
    let done = compress(&input, &standard()).unwrap();
    assert!(done.output.len() <= input.len());
    assert_eq!(done.report.input_bytes, input.len());
    assert_eq!(done.report.output_bytes, done.output.len());
    assert_eq!(done.render_due(check), Some((Preset::Standard, true)));
    assert_eq!(done.render_due(Verify::Structure), None);
    let whole = Single {
        bits: 1.0f32.to_bits(),
    };
    let rendered = Rendered {
        comparison: Comparison::of_scores(&vec![Some(whole)], Preset::Standard),
        text: "render".to_string(),
    };
    let done = done.judge(Ok(rendered), true).unwrap();
    assert!(done.verification.is_some_and(|v| v.is_ok()));
    assert!(done
        .render
        .is_some_and(|r| f32::from_bits(r.min().unwrap().bits) > 0.99));
}

#[test]
fn unparseable_input_is_rejected_with_its_report() {
    let config = Config::preset(Preset::Less);
    let rejected = compress(&b"not a pdf".to_vec(), &config).unwrap_err();
    assert!(matches!(rejected.reason, Refusal::Unparseable(_)));
    assert!(rejected.to_text().contains("parsing the input"));
    assert_eq!(rejected.report.notes.len(), 0);
}

#[test]
fn every_refusal_has_its_message() {
    let (doc, _) = doc_with_kids(true);
    let rejected = compress_loaded(Ok(doc), &vec![0; 10], &standard()).unwrap_err();
    assert_eq!(
        rejected.to_text(),
        "page tree refers to objects the parser could not load"
    );
    let messages = [
        (
            Refusal::PasswordRequired,
            "input is encrypted with a password that is needed to open it",
        ),
        (
            Refusal::DamagedResources,
            "page content or resources refer to objects the parser could not load",
        ),
        (
            Refusal::UndecryptedCryptFilters,
            "input is encrypted with crypt filters the parser could not read, so it was not decrypted",
        ),
        (Refusal::Internal("boom".to_string()), "boom"),
    ];
    for (refusal, message) in messages {
        assert_eq!(refusal.to_text(), message);
    }
}

// -------------------------------------------------------------------- cli

fn no_flags() -> Overrides {
    Overrides {
        dpi: None,
        threshold_dpi: None,
        bitonal: None,
        continuous: None,
        indexed: None,
        jpeg_quality: None,
        color_conversion: None,
        clip_images: None,
        reduce_color_complexity: None,
        subset_fonts: None,
        merge_fonts: None,
        remove_standard_fonts: None,
        convert_to_cff: None,
        optimize_resources: None,
        remove_redundant_objects: None,
        rebuild_content_streams: None,
        strip: None,
    }
}

#[test]
fn output_paths_follow_the_inputs() {
    let stem = |s: &str| Some(s.to_string());
    assert_eq!(
        output_place(&stem("x"), false, false, 1),
        OutputPlace::Beside("x-compressed.pdf".to_string())
    );
    assert_eq!(output_place(&stem("x"), true, false, 1), OutputPlace::Named);
    assert_eq!(
        output_place(&stem("z"), true, false, 2),
        OutputPlace::Inside("z-compressed.pdf".to_string())
    );
    assert_eq!(
        output_place(&None, true, true, 1),
        OutputPlace::Inside("output-compressed.pdf".to_string())
    );
}

#[test]
fn flags_override_preset_fields() {
    let number = |v: f32| Some(Single { bits: v.to_bits() });
    let mut flags = no_flags();
    flags.continuous = Some(Codecs::parse("jpeg,flate,source").unwrap());
    flags.indexed = Some(Codecs::parse("none").unwrap());
    flags.color_conversion = Some(ColorConversion::from(ColorArg::Rgb));
    flags.clip_images = Some(true);
    flags.subset_fonts = Some(false);
    flags.strip = Some(Strip::parse("metadata,thumbnails").unwrap());
    flags.dpi = number(100.0);
    flags.threshold_dpi = number(120.0);
    let cfg = config(PresetArg::Less, &flags);
    assert_eq!(
        cfg.continuous,
        Codecs::jpeg() | Codecs::flate() | Codecs::source()
    );
    assert_eq!(cfg.indexed, Codecs::none());
    assert_eq!(cfg.color_conversion, ColorConversion::Rgb);
    assert!(cfg.clip_images && !cfg.subset_fonts);
    assert_eq!(cfg.strip, Strip::metadata() | Strip::thumbnails());
    assert_eq!(
        (
            f32::from_bits(cfg.gray_dpi.target.bits),
            f32::from_bits(cfg.gray_dpi.threshold.bits)
        ),
        (100.0, 120.0)
    );
    // Untouched fields keep the preset's values.
    assert_eq!(cfg.bitonal, Config::preset(Preset::Less).bitonal);
}

#[test]
fn unknown_names_are_rejected() {
    let err = Strip::parse("threads,metadata,foo").unwrap_err();
    assert!(err.contains("unknown name `foo`"), "{err}");
    assert!(Codecs::parse("png").is_err());
}

#[test]
fn arguments_mean_what_they_say() {
    assert_eq!(
        VerifyArg::Render.level(PresetArg::More, true),
        Verify::Render {
            preset: Preset::More,
            strict: true
        }
    );
    assert_eq!(
        VerifyArg::Structure.level(PresetArg::Less, false),
        Verify::Structure
    );
    assert_eq!(
        ColorConversion::from(ColorArg::Keep),
        ColorConversion::Keep
    );
    assert_eq!(log_levels(0), ("warn", "error"));
    assert_eq!(log_levels(2), ("debug", "info"));
    assert_eq!(log_levels(9), ("trace", "trace"));
}

// ----------------------------------------------------------------- report

#[test]
fn the_report_is_a_table_of_what_was_done() {
    let mut report = Report::new(2048);
    report.output_bytes = 1024;
    report.stages.push(StageSummary {
        name: "strip",
        bytes_before: 2048,
        bytes_after: 1536,
        elapsed: 1_500_000,
    });
    report.images.push(ImageRow {
        object: (7, 0),
        width: 10,
        height: 20,
        bits_per_component: 8,
        color_space: "DeviceRGB".to_string(),
        filter_in: "FlateDecode".to_string(),
        effective_dpi: Some(300),
        bytes_in: 600,
        action: "kept".to_string(),
        filter_out: "FlateDecode".to_string(),
        bytes_out: 600,
    });
    report.fonts.push(FontRow {
        object: (9, 0),
        name: "Tiny".to_string(),
        program: "Type1".to_string(),
        bytes_in: 100,
        action: "subset".to_string(),
        bytes_out: 50,
    });
    report.note("something");
    let text = report.to_text();
    for part in ["strip", "DeviceRGB", "Tiny", "something", "-50.0%", "2.0 KiB"] {
        assert!(text.contains(part), "{part} is missing in {text}");
    }
}

fn image_facts(id: &str, family: &str, bpc: Option<u8>) -> Option<StreamFacts> {
    Some(StreamFacts {
        id: id.to_string(),
        kind: None,
        subtype: Some("Image".to_string()),
        space: None,
        family: Some(family.to_string()),
        bpc,
        width: Some(2),
        height: Some(2),
    })
}

#[test]
fn indexed_images_of_other_depths_do_not_decode() {
    let objects = vec![
        image_facts("1 0", "Indexed", Some(8)),
        None,
        image_facts("2 0", "Indexed", Some(32)),
        image_facts("3 0", "Indexed", None),
        image_facts("4 0", "ICCBased", Some(32)),
    ];
    let plan = find_plan(&objects);
    let ids: Vec<&str> = plan.iter().map(|(id, _)| id.as_str()).collect();
    assert_eq!(ids, ["1 0", "3 0", "4 0"]);
    assert!(plan.iter().all(|(_, r)| matches!(r, Reading::Image(_))));
    let v = check(&Ok(vec![(true, true)]), &objects, &Vec::new(), 1);
    assert_eq!(v.problems, ["object 2 0: stream does not decode (ImageDecode)"]);
    assert_eq!((v.objects, v.streams_checked), (5, 4));
}

#[test]
fn errors_belong_to_the_objects_they_name() {
    let objects = vec![
        image_facts("1 0", "DeviceGray", Some(8)),
        image_facts("2 0", "DeviceGray", Some(8)),
    ];
    // The second walk may give the objects in another order.
    let errors = vec![
        Some(("2 0".to_string(), Some("StreamDecode".to_string()))),
        None,
        Some(("1 0".to_string(), None)),
    ];
    let v = check(&Ok(Vec::new()), &objects, &errors, 0);
    assert_eq!(v.problems, ["object 2 0: stream does not decode (StreamDecode)"]);
}
