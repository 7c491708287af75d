use compress_pdf::compress::load;
use compress_pdf::config::{Config, Preset};
use compress_pdf::document::Pdf;
use compress_pdf::object::{DataStream, Dict, ObjectId, StringForm, Value};
use compress_pdf::pipeline;
use compress_pdf::report::Report;
use compress_pdf::verify::verify;

fn dict(entries: Vec<(&str, Value)>) -> Dict {
    let mut d = Dict::new();
    for (k, v) in entries {
        d.set(k.as_bytes(), v);
    }
    d
}

fn dictionary(entries: Vec<(&str, Value)>) -> Value {
    Value::Dictionary(dict(entries))
}

fn stream(entries: Vec<(&str, Value)>, content: Vec<u8>) -> Value {
    let mut d = dict(entries);
    d.set(b"Length", Value::Integer(content.len() as i64));
    Value::Stream(DataStream { dict: d, content })
}

fn name(n: &str) -> Value {
    Value::Name(n.as_bytes().to_vec())
}

fn whole(i: i64) -> Value {
    Value::Integer(i)
}

fn text(s: &str) -> Value {
    Value::String(s.as_bytes().to_vec(), StringForm::Literal)
}

fn to(id: ObjectId) -> Value {
    Value::Reference(id)
}

fn list(items: Vec<Value>) -> Value {
    Value::Array(items)
}

fn dict_mut(doc: &mut Pdf, id: ObjectId) -> &mut Dict {
    let at = doc.position(id).unwrap();
    match &mut doc.objects[at].1 {
        Value::Dictionary(d) => d,
        _ => panic!("not a dictionary"),
    }
}

/// Add the page tree and catalog: one page (300 x 300 pt) drawing
/// `content` with the given resources. Returns the page id.
fn one_page(doc: &mut Pdf, content: &[u8], resources: Dict) -> ObjectId {
    let contents = doc.add_object(stream(vec![], content.to_vec()));
    let pages_id = doc.new_object_id();
    let page = doc.add_object(dictionary(vec![
        ("Type", name("Page")),
        ("Parent", to(pages_id)),
        ("Contents", to(contents)),
        (
            "MediaBox",
            list(vec![whole(0), whole(0), whole(300), whole(300)]),
        ),
        ("Resources", Value::Dictionary(resources)),
    ]));
    doc.insert(
        pages_id,
        dictionary(vec![
            ("Type", name("Pages")),
            ("Kids", list(vec![to(page)])),
            ("Count", whole(1)),
        ]),
    );
    let catalog = doc.add_object(dictionary(vec![
        ("Type", name("Catalog")),
        ("Pages", to(pages_id)),
    ]));
    doc.trailer.set(b"Root", to(catalog));
    page
}

fn gray_image(doc: &mut Pdf, width: i64, height: i64, samples: Vec<u8>) -> ObjectId {
    let mut squeezed = lopdf::Stream::new(lopdf::Dictionary::new(), samples);
    squeezed.compress().unwrap();
    let mut entries = vec![
        ("Width", whole(width)),
        ("Height", whole(height)),
        ("ColorSpace", name("DeviceGray")),
        ("BitsPerComponent", whole(8)),
        ("Type", name("XObject")),
        ("Subtype", name("Image")),
    ];
    if squeezed.dict.has(b"Filter") {
        entries.push(("Filter", name("FlateDecode")));
    }
    doc.add_object(stream(entries, squeezed.content))
}

fn duplicate_images() -> Pdf {
    let mut doc = Pdf::with_version("1.5");
    let samples: Vec<u8> = (0..100u32)
        .flat_map(|y| (0..100u32).map(move |x| ((x + y) % 256) as u8))
        .collect();
    let a = gray_image(&mut doc, 100, 100, samples.clone());
    let b = gray_image(&mut doc, 100, 100, samples);
    one_page(
        &mut doc,
        b"q 72 0 0 72 10 10 cm /ImA Do Q q 72 0 0 72 150 10 cm /ImB Do Q",
        dict(vec![(
            "XObject",
            dictionary(vec![("ImA", to(a)), ("ImB", to(b))]),
        )]),
    );
    doc
}

fn unused_resources() -> Pdf {
    let mut doc = Pdf::with_version("1.5");
    let unused = gray_image(&mut doc, 8, 8, vec![0u8; 64]);
    let used = gray_image(&mut doc, 8, 8, vec![128u8; 64]);
    let font = doc.add_object(dictionary(vec![
        ("Type", name("Font")),
        ("Subtype", name("Type1")),
        ("BaseFont", name("Helvetica")),
    ]));
    one_page(
        &mut doc,
        b"q 72 0 0 72 10 10 cm /Used Do Q",
        dict(vec![
            (
                "XObject",
                dictionary(vec![("Used", to(used)), ("Unused", to(unused))]),
            ),
            ("Font", dictionary(vec![("F1", to(font))])),
        ]),
    );
    doc
}

fn metadata_thumbnail() -> Pdf {
    let mut doc = Pdf::with_version("1.5");
    let thumb = gray_image(&mut doc, 16, 16, vec![200u8; 256]);
    let page = one_page(&mut doc, b"0 0 1 rg 20 20 100 100 re f", Dict::new());
    dict_mut(&mut doc, page).set(b"Thumb", to(thumb));
    let xmp = b"<?xpacket begin='' id='W5M0MpCehiHzreSzNTczkc9d'?><x:xmpmeta xmlns:x='adobe:ns:meta/'></x:xmpmeta><?xpacket end='w'?>".to_vec();
    let metadata = doc.add_object(stream(
        vec![("Type", name("Metadata")), ("Subtype", name("XML"))],
        xmp,
    ));
    let root = doc.root().unwrap();
    dict_mut(&mut doc, root).set(b"Metadata", to(metadata));
    doc
}

enum Form {
    Plain,
    Xfa,
    Shared,
}

fn form_fonts(form: Form) -> Pdf {
    let mut doc = Pdf::with_version("1.5");
    let page = one_page(&mut doc, b"", Dict::new());
    let font = |base: &str| {
        dictionary(vec![
            ("Type", name("Font")),
            ("Subtype", name("Type1")),
            ("BaseFont", name(base)),
        ])
    };
    let helv = doc.add_object(font("Helvetica"));
    let cour = doc.add_object(font("Boxes"));
    let field = doc.add_object(dictionary(vec![
        ("FT", name("Tx")),
        ("T", text("name")),
        ("V", text("hello")),
        ("DA", text("/Helv 12 Tf 0 g")),
        ("Subtype", name("Widget")),
        ("P", to(page)),
        (
            "Rect",
            list(vec![whole(20), whole(200), whole(200), whole(230)]),
        ),
    ]));
    dict_mut(&mut doc, page).set(b"Annots", list(vec![to(field)]));
    let fonts = dictionary(vec![("Helv", to(helv)), ("Cour", to(cour))]);
    let fonts = match form {
        Form::Shared => {
            let id = doc.add_object(fonts);
            let usual = dictionary(vec![("Font", to(id))]);
            dict_mut(&mut doc, page).set(b"Resources", usual);
            let contents = doc.add_object(stream(
                vec![],
                b"BT /Helv 9 Tf (a) Tj /Cour 9 Tf (b) Tj ET".to_vec(),
            ));
            dict_mut(&mut doc, page).set(b"Contents", to(contents));
            to(id)
        }
        _ => fonts,
    };
    let mut acro = dict(vec![
        ("Fields", list(vec![to(field)])),
        ("DA", text("/Helv 0 Tf 0 g")),
        ("DR", dictionary(vec![("Font", fonts)])),
    ]);
    if matches!(form, Form::Xfa) {
        let xdp = doc.add_object(stream(
            vec![],
            b"<xdp:xdp xmlns:xdp='http://ns.adobe.com/xdp/'></xdp:xdp>".to_vec(),
        ));
        acro.set(b"XFA", to(xdp));
    }
    let root = doc.root().unwrap();
    dict_mut(&mut doc, root).set(b"AcroForm", Value::Dictionary(acro));
    doc
}

/// Run a probe under a preset; the report and the transformed document.
fn run(mut doc: Pdf, preset: Preset) -> (Pdf, Report) {
    let mut report = Report::new(0);
    pipeline::run(&mut doc, &Config::preset(preset), &mut report).expect("pipeline runs");
    (doc, report)
}

fn image_streams(doc: &Pdf) -> usize {
    doc.objects
        .iter()
        .filter_map(|(_, o)| o.as_stream())
        .filter(|s| s.dict.get(b"Subtype").is_some_and(|n| n.is_name("Image")))
        .count()
}

#[test]
fn duplicate_images_are_merged() {
    for preset in [Preset::Less, Preset::Standard] {
        let (doc, _) = run(duplicate_images(), preset);
        assert_eq!(image_streams(&doc), 1, "{preset:?}");
    }
}

#[test]
fn unused_resources_are_dropped_under_standard() {
    let (doc, report) = run(unused_resources(), Preset::Standard);
    assert!(
        report
            .notes
            .iter()
            .any(|n| n.contains("removed 2 unused resource entries")),
        "{}",
        report.to_text()
    );
    assert_eq!(image_streams(&doc), 1);
    assert!(!doc
        .objects
        .iter()
        .any(|(_, o)| o.as_dict().is_some_and(|d| d.has(b"BaseFont"))));
}

#[test]
fn metadata_and_thumbnail_are_stripped_by_standard_only() {
    let has = |doc: &Pdf, key: &[u8]| {
        doc.objects
            .iter()
            .any(|(_, o)| o.as_dict().is_some_and(|d| d.has(key)))
    };
    let (doc, _) = run(metadata_thumbnail(), Preset::Standard);
    assert!(!has(&doc, b"Metadata") && !has(&doc, b"Thumb"));
    let (doc, _) = run(metadata_thumbnail(), Preset::Less);
    assert!(has(&doc, b"Metadata") && has(&doc, b"Thumb"));
}

#[test]
fn default_resource_fonts_are_pruned_unless_xfa() {
    let dr_fonts = |doc: &Pdf| -> Vec<Vec<u8>> {
        let acro = doc.catalog().unwrap().get(b"AcroForm").unwrap();
        let acro = doc.dereference(acro).unwrap().as_dict().unwrap();
        let dr = acro.get(b"DR").unwrap();
        let dr = doc.dereference(dr).unwrap().as_dict().unwrap();
        let fonts = dr.get(b"Font").unwrap();
        let fonts = doc.dereference(fonts).unwrap().as_dict().unwrap();
        let mut names: Vec<Vec<u8>> = fonts.entries.iter().map(|(k, _)| k.clone()).collect();
        names.sort();
        names
    };
    let (doc, _) = run(form_fonts(Form::Plain), Preset::Standard);
    assert_eq!(dr_fonts(&doc), vec![b"Helv".to_vec()]);
    let (doc, _) = run(form_fonts(Form::Xfa), Preset::Standard);
    assert_eq!(dr_fonts(&doc), vec![b"Cour".to_vec(), b"Helv".to_vec()]);
    let (doc, _) = run(form_fonts(Form::Shared), Preset::Standard);
    assert_eq!(dr_fonts(&doc), vec![b"Cour".to_vec(), b"Helv".to_vec()]);
}

#[test]
fn probes_never_grow_and_verify_under_every_preset() {
    let probes = || {
        vec![
            duplicate_images(),
            unused_resources(),
            metadata_thumbnail(),
            form_fonts(Form::Plain),
            form_fonts(Form::Xfa),
        ]
    };
    for preset in [Preset::Less, Preset::Standard, Preset::More] {
        for mut probe in probes() {
            let mut report = Report::new(0);
            let room = vec![0u8; 1_000_000];
            let bytes = pipeline::serialize(&mut probe, &room, &mut report).unwrap();
            let mut doc = load(&bytes).unwrap();
            let mut report = Report::new(bytes.len());
            pipeline::run(&mut doc, &Config::preset(preset), &mut report).unwrap();
            let out = pipeline::serialize(&mut doc, &bytes, &mut report).unwrap();
            assert!(out.len() <= bytes.len(), "{preset:?}");
            let v = verify(&out, 1);
            assert!(v.is_ok(), "{preset:?}: {}", v.to_text());
        }
    }
}
