use compress_pdf::document::Pdf;
use compress_pdf::font::cff;
use compress_pdf::font::charstring::{encode, to_type2, Ratio};
use compress_pdf::font::cipher::decrypt;
use compress_pdf::font::cmap::CMap;
use compress_pdf::font::codes::CodeNames;
use compress_pdf::font::convert::type1_to_cff;
use compress_pdf::font::decimal::Decimal;
use compress_pdf::font::glyphs::{used, Addressing, Base, CidToGid, Kind, SimpleEncoding};
use compress_pdf::font::sfnt::{build, is_sfnt, normalize, table_range, unwrap_cff, wrap_cff};
use compress_pdf::font::std14::{can_unembed, canonical_name};
use compress_pdf::font::subset::{finish, plan, Program};
use compress_pdf::font::type1::{find_eexec, parse};
use compress_pdf::idset::IdSet;
use compress_pdf::object::{Dict, Value};
use read_fonts::ps::cff::CffFontRef;
use read_fonts::types::GlyphId;
use read_fonts::TableProvider;

const EEXEC_KEY: u16 = 55665;
const CHARSTRING_KEY: u16 = 4330;

fn decimal(text: &str) -> Decimal {
    Decimal::parse(text.as_bytes()).unwrap()
}

fn decimals(text: &str) -> Vec<Decimal> {
    text.split_whitespace().map(decimal).collect()
}

fn ids(list: &[u32]) -> IdSet {
    let mut set = IdSet::new();
    for id in list {
        set.insert(*id);
    }
    set
}

fn codes(list: &[(u8, &str)]) -> CodeNames {
    let mut names = CodeNames::new();
    for (code, name) in list {
        names.set(*code, name.as_bytes());
    }
    names
}

fn dict(entries: Vec<(&str, Value)>) -> Dict {
    let mut d = Dict::new();
    for (k, v) in entries {
        d.set(k.as_bytes(), v);
    }
    d
}

fn name(n: &str) -> Value {
    Value::Name(n.as_bytes().to_vec())
}

// ------------------------------------------------------------------- cmap

#[test]
fn identity_splits_two_byte_codes() {
    let cmap = CMap::predefined(b"Identity-H").unwrap();
    assert_eq!(cmap.cids(&[0, 65, 1, 2]), vec![65, 258]);
    assert!(CMap::predefined(b"UniGB-UCS2-H").is_none());
}

#[test]
fn embedded_cmap_maps_ranges_and_singles() {
    let src = b"/CIDInit /ProcSet findresource begin begincmap
        1 begincodespacerange <00> <80> <8140> <9ffc> endcodespacerange
        2 begincidrange <20> <7e> 1 <8140> <8150> 633 endcidrange
        1 begincidchar <7f> 999 endcidchar
        endcmap";
    let cmap = CMap::parse(src).unwrap();
    // 'A' (0x41) -> 1 + 0x21 = 34; 0x8142 -> 635; 0x7f -> 999; 0x81 alone
    // is in no codespace and maps to 0 as a one-byte code.
    assert_eq!(cmap.cids(&[0x41, 0x81, 0x42, 0x7f]), vec![34, 635, 999]);
    assert_eq!(cmap.cids(&[0x00]), vec![0]);
}

#[test]
fn bf_operators_map_to_cids_read_from_strings() {
    let src = b"1 begincodespacerange <0000> <ffff> endcodespacerange
        1 beginbfchar <0020> <0003> endbfchar
        1 beginbfrange <0041> <005a> <0024> endbfrange";
    let cmap = CMap::parse(src).unwrap();
    assert_eq!(cmap.cids(&[0, 0x20, 0, 0x43]), vec![3, 0x26]);
}

#[test]
fn usecmap_identity_and_missing_codespaces() {
    let src = b"/Identity-H usecmap 1 begincidrange <0100> <01ff> 5 endcidrange";
    let cmap = CMap::parse(src).unwrap();
    assert_eq!(cmap.cids(&[1, 0, 0, 7]), vec![5, 7]);
    let no_space = b"1 begincidchar <41> 3 endcidchar";
    assert_eq!(CMap::parse(no_space).unwrap().cids(b"AB"), vec![3, 0]);
    assert!(CMap::parse(b"nothing here").is_none());
}

#[test]
fn identity_pairs_bytes_and_keeps_the_odd_one() {
    let cmap = CMap::identity();
    assert_eq!(cmap.cids(&[1, 2, 3, 4]), vec![0x102, 0x304]);
    assert_eq!(cmap.cids(&[]), Vec::<u32>::new());
    // A byte in no codespace is taken alone and maps to CID 0.
    assert_eq!(cmap.cids(&[0, 65, 7]), vec![65, 0]);
}

#[test]
fn codes_in_no_codespace_take_one_byte() {
    let src = b"1 begincodespacerange <8140> <9ffc> endcodespacerange
        1 begincidrange <8140> <8150> 633 endcidrange";
    let cmap = CMap::parse(src).unwrap();
    assert_eq!(cmap.cids(&[0x20, 0x81, 0x42, 0x7f]), vec![0, 635, 0]);
}

#[test]
fn spelling_does_not_matter_to_standard_names() {
    for spelling in [
        "Helvetica-BoldOblique",
        "HELVETICA_bold oblique",
        "Hel vet-ica,Bold,Oblique",
        "ABCDEF+Helvetica-BoldOblique",
    ] {
        assert_eq!(canonical_name(spelling.as_bytes()), Some("Helvetica-BoldOblique"));
    }
    for own in ["Times-Roman", "Times-BoldItalic", "Courier", "Symbol", "ZapfDingbats"] {
        assert_eq!(canonical_name(own.as_bytes()), Some(own));
    }
}

// ------------------------------------------------------------------- sfnt

/// A two-glyph CFF (`.notdef` and `A`, both empty charstrings) with a
/// standard charset and encoding; enough for the wrapper and the
/// subsetter to work on.
fn tiny_cff() -> Vec<u8> {
    let mut cff = vec![1, 0, 4, 1]; // header: 1.0, hdrSize 4, offSize 1
    // Name INDEX: one name "T".
    cff.extend([0, 1, 1, 1, 2, b'T']);
    // Top DICT INDEX with one dict; offsets filled below.
    let charstrings_op = [29, 0, 0, 0, 0, 17]; // longint placeholder, CharStrings
    let private_op = [28, 0, 0, 29, 0, 0, 0, 0, 18]; // size 0, offset placeholder, Private
    let dict_len = charstrings_op.len() + private_op.len();
    cff.extend([0, 1, 1, 1, (1 + dict_len) as u8]);
    let dict_start = cff.len();
    cff.extend(charstrings_op);
    cff.extend(private_op);
    // String INDEX: empty. Global Subr INDEX: empty.
    cff.extend([0, 0, 0, 0]);
    let charstrings_at = cff.len() as u32;
    // CharStrings INDEX: two glyphs, each just `endchar` (14).
    cff.extend([0, 2, 1, 1, 2, 3, 14, 14]);
    let private_at = cff.len() as u32;
    // Patch the placeholders (longint operands are big-endian).
    cff[dict_start + 1..dict_start + 5].copy_from_slice(&charstrings_at.to_be_bytes());
    cff[dict_start + 10..dict_start + 14].copy_from_slice(&private_at.to_be_bytes());
    cff
}

#[test]
fn normalize_sorts_the_directory_and_repairs_the_counts() {
    let mut head = [0u8; 54];
    head[..2].copy_from_slice(&[0, 241]); // a head version no reader accepts
    let maxp = [0, 1, 0, 0, 0, 9]; // claims 9 glyphs
    let loca = [0u8; 8]; // short offsets: 4 entries, so 3 glyphs
    let mut font = build(
        0x0001_0000,
        &[
            (b"maxp", &maxp),
            (b"loca", &loca),
            (b"head", &head),
            (b"junk", &[1; 4]),
        ],
    );
    let junk = 12 + 16 * 3;
    font[junk + 8..junk + 12].copy_from_slice(&u32::MAX.to_be_bytes()); // points outside
    let tags = |f: &[u8]| {
        let n = usize::from(f[5]);
        (0..n)
            .map(|i| f[12 + 16 * i..16 + 16 * i].to_vec())
            .collect::<Vec<_>>()
    };
    assert_eq!(tags(&font), [b"maxp", b"loca", b"head", b"junk"]);
    let body = font[12 + 64..].to_vec();
    normalize(&mut font);
    assert_eq!(tags(&font), [b"head", b"loca", b"maxp"]);
    let head = table_range(&font, b"head").unwrap();
    assert_eq!(font[head.start..head.start + 4], [0, 1, 0, 0]);
    let maxp = table_range(&font, b"maxp").unwrap();
    assert_eq!(font[maxp.start + 4..maxp.start + 6], [0, 3]);
    let mut expected = body.clone();
    expected[4..6].copy_from_slice(&[0, 3]); // maxp glyph count
    expected[16..20].copy_from_slice(&[0, 1, 0, 0]); // head version
    assert_eq!(font[12 + 64..], expected[..], "nothing else changed");
    let before = font.clone();
    normalize(&mut font);
    assert_eq!(font, before, "a normalized font is a fixed point");
    for short in [
        &b"\x00\x01\x00\x00\x00"[..],
        b"\x00\x01\x00\x00\x00\x09",
        b"ttcf\x00\x02",
    ] {
        let mut data = short.to_vec();
        normalize(&mut data);
        assert_eq!(data, short);
    }
}

#[test]
fn wrapped_cff_round_trips_and_parses() {
    let cff = tiny_cff();
    let font = CffFontRef::new_cff(&cff, 0, None).unwrap();
    assert_eq!(font.num_glyphs(), 2);
    let sfnt = wrap_cff(&cff).unwrap();
    assert!(is_sfnt(&sfnt));
    assert_eq!(unwrap_cff(&sfnt).unwrap(), cff);
    let face = read_fonts::FontRef::new(&sfnt).unwrap();
    assert_eq!(face.maxp().unwrap().num_glyphs(), 2);
    assert_eq!(face.head().unwrap().units_per_em(), 1000);
}

#[test]
fn non_fonts_are_rejected() {
    assert!(wrap_cff(b"not a font").is_none());
    assert!(unwrap_cff(b"\x00\x01\x00\x00\x00\x00").is_none());
    assert!(!is_sfnt(b"%!PS-AdobeFont"));
}

#[test]
fn every_built_table_is_found_again() {
    let font = build(
        0x4F54_544F,
        &[(b"CFF ", b"abcde"), (b"head", b"0123456789"), (b"zzzz", b"")],
    );
    let range = table_range(&font, b"CFF ").unwrap();
    assert_eq!(&font[range], b"abcde");
    let range = table_range(&font, b"head").unwrap();
    assert_eq!(&font[range], b"0123456789");
    assert!(table_range(&font, b"none").is_none());
}

// ------------------------------------------------------------------ std14

#[test]
fn names_and_aliases_fold_to_the_canonical_font() {
    assert_eq!(canonical_name(b"Helvetica"), Some("Helvetica"));
    assert_eq!(
        canonical_name(b"ABCDEF+Arial-BoldMT"),
        Some("Helvetica-Bold")
    );
    assert_eq!(
        canonical_name(b"Arial,BoldItalic"),
        Some("Helvetica-BoldOblique")
    );
    assert_eq!(
        canonical_name(b"TimesNewRomanPS-ItalicMT"),
        Some("Times-Italic")
    );
    assert_eq!(canonical_name(b"Times-Roman"), Some("Times-Roman"));
    assert_eq!(canonical_name(b"CourierNewPSMT"), Some("Courier"));
    assert_eq!(
        canonical_name(b"Courier-BoldOblique"),
        Some("Courier-BoldOblique")
    );
    assert_eq!(canonical_name(b"Symbol"), Some("Symbol"));
    assert_eq!(canonical_name(b"ZapfDingbats"), Some("ZapfDingbats"));
    assert_eq!(canonical_name(b"ArialNarrow"), None);
    assert_eq!(canonical_name(b"Helvetica-Condensed-Bold"), None);
    assert_eq!(canonical_name(b"ArialUnicodeMS"), None);
    assert_eq!(canonical_name(b"Symbol-Bold"), None);
    assert_eq!(canonical_name(b"CMR10"), None);
}

#[test]
fn unembedding_needs_a_trustworthy_encoding() {
    let doc = Pdf::with_version("1.5");
    let plain = dict(vec![("Flags", Value::Integer(32))]);
    let symbolic = dict(vec![("Flags", Value::Integer(4))]);
    let font = |enc: Option<Value>| {
        let mut d = dict(vec![
            ("Type", name("Font")),
            ("Subtype", name("TrueType")),
            ("BaseFont", name("Arial")),
        ]);
        if let Some(e) = enc {
            d.set(b"Encoding", e);
        }
        d
    };
    assert_eq!(can_unembed(&doc, &font(None), &plain), Some("Helvetica"));
    assert_eq!(can_unembed(&doc, &font(None), &symbolic), None);
    assert_eq!(
        can_unembed(&doc, &font(Some(name("WinAnsiEncoding"))), &symbolic),
        Some("Helvetica")
    );
    let differences = |names: Vec<Value>| {
        let mut items = vec![Value::Integer(65)];
        items.extend(names);
        Value::Dictionary(dict(vec![("Differences", Value::Array(items))]))
    };
    let diffs = differences(vec![name("eacute"), name("bullet")]);
    assert_eq!(
        can_unembed(&doc, &font(Some(diffs)), &plain),
        Some("Helvetica")
    );
    let odd = differences(vec![name("g123")]);
    assert_eq!(can_unembed(&doc, &font(Some(odd)), &plain), None);
    let mut symbol = dict(vec![
        ("Type", name("Font")),
        ("Subtype", name("Type1")),
        ("BaseFont", name("Symbol")),
    ]);
    assert_eq!(can_unembed(&doc, &symbol, &symbolic), Some("Symbol"));
    symbol.set(b"Encoding", name("WinAnsiEncoding"));
    assert_eq!(can_unembed(&doc, &symbol, &symbolic), None);
}

// ------------------------------------------------------------------ type1

/// The inverse of `decrypt`, for building test fonts.
fn encrypt(data: &[u8], key: u16, lead: usize) -> Vec<u8> {
    let mut r = key;
    let mut out = Vec::new();
    for &p in std::iter::repeat_n(&0u8, lead).chain(data) {
        let c = p ^ (r >> 8) as u8;
        r = (u16::from(c).wrapping_add(r))
            .wrapping_mul(52845)
            .wrapping_add(22719);
        out.push(c);
    }
    out
}

/// A Type 1 charstring from a readable operator list; numbers are
/// encoded in the single-byte and two-byte forms.
fn charstring(source: &str) -> Vec<u8> {
    let mut out = Vec::new();
    for word in source.split_whitespace() {
        match word {
            "hsbw" => out.push(13),
            "rmoveto" => out.push(21),
            "hmoveto" => out.push(22),
            "vmoveto" => out.push(4),
            "rlineto" => out.push(5),
            "hlineto" => out.push(6),
            "vlineto" => out.push(7),
            "rrcurveto" => out.push(8),
            "closepath" => out.push(9),
            "callsubr" => out.push(10),
            "return" => out.push(11),
            "endchar" => out.push(14),
            "hstem" => out.push(1),
            "vstem" => out.push(3),
            "dotsection" => out.extend([12, 0]),
            "seac" => out.extend([12, 6]),
            "sbw" => out.extend([12, 7]),
            "div" => out.extend([12, 12]),
            "callothersubr" => out.extend([12, 16]),
            "pop" => out.extend([12, 17]),
            "setcurrentpoint" => out.extend([12, 33]),
            n => {
                let v: i32 = n.parse().unwrap();
                if (-107..=107).contains(&v) {
                    out.push((v + 139) as u8);
                } else if (108..=1131).contains(&v) {
                    let v = v - 108;
                    out.extend([(v >> 8) as u8 + 247, (v & 0xff) as u8]);
                } else if (-1131..=-108).contains(&v) {
                    let v = -v - 108;
                    out.extend([(v >> 8) as u8 + 251, (v & 0xff) as u8]);
                } else {
                    out.push(255);
                    out.extend(v.to_be_bytes());
                }
            }
        }
    }
    out
}

const SQUARE: &str =
    "50 600 hsbw 0 0 rmoveto 400 hlineto 400 vlineto -400 hlineto closepath endchar";

/// A complete two-glyph Type 1 program (a square `A` and `.notdef`)
/// with a custom encoding mapping code 65 to `A`, eexec-encrypted in
/// binary form.
fn tiny_type1(hex: bool) -> Vec<u8> {
    let glyph_a = charstring(SQUARE);
    let notdef = charstring("0 500 hsbw endchar");
    let subr = charstring("100 100 rlineto return");
    let mut private = Vec::new();
    private.extend_from_slice(b"dup /Private 8 dict dup begin\n/RD {string currentfile exch readstring pop} executeonly def\n/ND {noaccess def} executeonly def\n/NP {noaccess put} executeonly def\n/BlueValues [ -10 0 700 710 ] def\n/StdHW [ 30 ] def\n/lenIV 4 def\n");
    private.extend_from_slice(b"/Subrs 1 array\n");
    let enc = encrypt(&subr, CHARSTRING_KEY, 4);
    private.extend_from_slice(format!("dup 0 {} RD ", enc.len()).as_bytes());
    private.extend_from_slice(&enc);
    private.extend_from_slice(b" NP\nND\nend\n/CharStrings 2 dict dup begin\n");
    for (name, cs) in [(".notdef", &notdef), ("A", &glyph_a)] {
        let enc = encrypt(cs, CHARSTRING_KEY, 4);
        private.extend_from_slice(format!("/{name} {} RD ", enc.len()).as_bytes());
        private.extend_from_slice(&enc);
        private.extend_from_slice(b" ND\n");
    }
    private.extend_from_slice(b"end\nend\nmark currentfile closefile\n");
    let encrypted = encrypt(&private, EEXEC_KEY, 4);
    let mut font = Vec::new();
    font.extend_from_slice(b"%!PS-AdobeFont-1.0: Tiny\n/FontName /Tiny def\n/FontMatrix [0.001 0 0 0.001 0 0] readonly def\n/FontBBox {0 0 400 400} readonly def\n/Encoding 256 array\n0 1 255 {1 index exch /.notdef put} for\ndup 65 /A put\nreadonly def\ncurrentdict end\ncurrentfile eexec\n");
    if hex {
        for b in &encrypted {
            font.extend_from_slice(format!("{b:02x}").as_bytes());
        }
    } else {
        font.extend_from_slice(&encrypted);
    }
    font
}

#[test]
fn cipher_round_trips() {
    let plain = b"hello charstrings";
    let enc = encrypt(plain, CHARSTRING_KEY, 4);
    assert_eq!(decrypt(&enc, CHARSTRING_KEY, 4), plain);
}

#[test]
fn parses_binary_and_hex_programs() {
    for hex in [false, true] {
        let font = parse(&tiny_type1(hex)).unwrap();
        assert_eq!(font.font_name, b"Tiny");
        assert_eq!(font.font_matrix, Some(decimals("0.001 0 0 0.001 0 0")));
        assert_eq!(font.font_bbox, Some(decimals("0 0 400 400")));
        assert!(font.encoding.as_ref().unwrap().selects(65, b"A"));
        assert_eq!(font.subrs.len(), 1);
        assert_eq!(font.subrs[0], charstring("100 100 rlineto return"));
        assert_eq!(font.charstrings.len(), 2);
        assert_eq!(font.charstrings[1].0, b"A");
        assert_eq!(font.charstrings[1].1, charstring(SQUARE));
        assert_eq!(
            font.private[0],
            (b"BlueValues".to_vec(), decimals("-10 0 700 710"))
        );
        assert_eq!(font.private[1], (b"StdHW".to_vec(), decimals("30")));
    }
}

#[test]
fn pfb_segments_are_stripped_and_garbage_is_rejected() {
    let plain = tiny_type1(false);
    let split = find_eexec(&plain).unwrap();
    let mut pfb = vec![0x80, 1];
    pfb.extend((split as u32).to_le_bytes());
    pfb.extend_from_slice(&plain[..split]);
    pfb.extend([0x80, 2]);
    pfb.extend(((plain.len() - split) as u32).to_le_bytes());
    pfb.extend_from_slice(&plain[split..]);
    pfb.extend([0x80, 3]);
    assert_eq!(parse(&pfb).unwrap().charstrings.len(), 2);
    assert!(parse(b"%!PS not a font at all").is_none());
}

// ------------------------------------------------------------- charstring

fn t2(source: &str) -> Vec<u8> {
    // The same readable form for Type 2, whose operands and shared
    // operators encode identically for the values used here.
    let mut out = Vec::new();
    for word in source.split_whitespace() {
        match word {
            "rmoveto" => out.push(21),
            "hmoveto" => out.push(22),
            "vmoveto" => out.push(4),
            "rlineto" => out.push(5),
            "hlineto" => out.push(6),
            "vlineto" => out.push(7),
            "rrcurveto" => out.push(8),
            "endchar" => out.push(14),
            "flex" => out.extend([12, 35]),
            n => encode(Ratio::whole(n.parse().unwrap()), &mut out).unwrap(),
        }
    }
    out
}

#[test]
fn numbers_keep_their_digits_and_their_exponent() {
    let text = |word: &str| String::from_utf8(decimal(word).to_text()).unwrap();
    assert_eq!(text("1e40"), format!("1{}", "0".repeat(40)));
    assert_eq!(text("1e-20"), "0.00000000000000000001");
    assert_eq!(text("-12.50E+0001"), "-125");
    assert_eq!(text("0.0390"), "0.039");
    assert_eq!(text("1e308").len(), 309);
    assert_eq!(text("1e-400"), "0");
    assert_eq!(text("0e99999999999999999999"), "0");
    assert_eq!(decimal("1000e-3"), decimal("1"));
    assert_eq!(Decimal::parse(b"1e309"), None);
    assert_eq!(Decimal::parse(b"1e99999999999999999999"), None);
    for word in ["", "e5", "1e", "1e+", "1e5.", ".", "1x"] {
        assert_eq!(Decimal::parse(word.as_bytes()), None, "{word}");
    }
    // Digits beyond the thirty-sixth are zeros.
    let long = "123456789012345678901234567890123456789";
    assert_eq!(text(long), "123456789012345678901234567890123456000");
    assert_eq!(decimal("-3.9").trunc(), -3);
    assert_eq!((decimal("1e18").to_count(), decimal("-1").to_count()), (10usize.pow(18), 0));
    assert_eq!(decimal("1e300").trunc(), 10i128.pow(36));
}

#[test]
fn written_numbers_read_back_as_they_were() {
    for word in ["0", "-0.001", "1e40", "12345.678e-9", "-9e308", "1e-323", "70", "00.50"] {
        let v = decimal(word);
        assert_eq!(Decimal::parse(&v.to_text()), Some(v), "{word}");
    }
}

#[test]
fn differences_are_exact_as_far_as_digits_go() {
    let less = |a: &str, b: &str| decimal(a).minus(decimal(b));
    assert_eq!(less("0.3", "0.1"), decimal("0.2"));
    assert_eq!(less("1000", "0.5"), decimal("999.5"));
    assert_eq!(less("0.5", "1000"), decimal("-999.5"));
    assert_eq!(less("5", "5.000"), decimal("0"));
    assert_eq!(less("1e20", "-1e-15"), decimal("100000000000000000000.000000000000001"));
    assert_eq!(less("1e40", "1"), decimal("1e40"));
}

#[test]
fn small_fractions_stay_fractions() {
    // Five divisions by 30000: less than the fixed-point form can show.
    let divisions = "30000 div ".repeat(5);
    let src = format!("0 500 hsbw 1 {divisions}hmoveto endchar");
    let g = to_type2(&charstring(&src), &[]).unwrap();
    let expected = [t2("500 0 hmoveto"), vec![255, 0, 0, 0, 0], t2("hmoveto endchar")].concat();
    assert_eq!(g.charstring, expected);
    // Parts that cancel are reduced: 8 times 3/30000, by 3/30000.
    let many = "30000 div 30000 div 30000 div 30000 div";
    let src = format!("0 500 hsbw 24 {many} 3 {many} div hmoveto endchar");
    let g = to_type2(&charstring(&src), &[]).unwrap();
    assert_eq!(g.charstring, t2("500 0 hmoveto 8 hmoveto endchar"));
}

#[test]
fn width_sidebearing_and_path_translate() {
    let g = to_type2(&charstring(SQUARE), &[]).unwrap();
    assert_eq!(g.width, Ratio::whole(600));
    assert_eq!(
        g.charstring,
        t2("600 50 hmoveto 0 0 rmoveto 400 hlineto 400 vlineto -400 hlineto endchar")
    );
}

#[test]
fn subroutines_are_inlined_and_hints_dropped() {
    let subrs = vec![charstring("10 20 rlineto return")];
    let g = to_type2(
        &charstring("0 500 hsbw 1 2 hstem 3 4 vstem 5 5 rmoveto 0 callsubr endchar"),
        &subrs,
    )
    .unwrap();
    assert_eq!(
        g.charstring,
        t2("500 0 hmoveto 5 5 rmoveto 10 20 rlineto endchar")
    );
}

#[test]
fn flex_becomes_the_type2_operator() {
    // Reference point (1,2); six points; height 50; end (100, 0).
    let src = "0 500 hsbw 0 0 rmoveto 0 1 callothersubr \
               1 2 rmoveto 0 2 callothersubr \
               10 0 rmoveto 0 2 callothersubr \
               10 5 rmoveto 0 2 callothersubr \
               10 5 rmoveto 0 2 callothersubr \
               10 -5 rmoveto 0 2 callothersubr \
               10 -5 rmoveto 0 2 callothersubr \
               10 0 rmoveto 0 2 callothersubr \
               50 100 0 3 0 callothersubr pop pop setcurrentpoint endchar";
    let g = to_type2(&charstring(src), &[]).unwrap();
    assert_eq!(
        g.charstring,
        t2("500 0 hmoveto 0 0 rmoveto 11 2 10 5 10 5 10 -5 10 -5 10 0 50 flex endchar")
    );
}

#[test]
fn seac_hint_replacement_and_div() {
    let subrs = vec![charstring("1 2 hstem return")];
    // Hint replacement: `subr# 1 3 callothersubr pop callsubr`.
    let g = to_type2(
        &charstring("30 600 hsbw 0 1 3 callothersubr pop callsubr 100 4 div 0 rmoveto 20 10 20 200 194 seac"),
        &subrs,
    )
    .unwrap();
    // 100/4 = 25; seac: adx - asb + sbx = 10 - 20 + 30 = 20.
    assert_eq!(
        g.charstring,
        t2("600 30 hmoveto 25 0 rmoveto 20 20 200 194 endchar")
    );
}

#[test]
fn fractions_and_errors() {
    let g = to_type2(&charstring("0 500 hsbw 1 3 div 0 rmoveto endchar"), &[]).unwrap();
    let mut expected = t2("500 0 hmoveto");
    expected.push(255);
    expected.extend(((1.0f64 / 3.0 * 65536.0).round() as i32).to_be_bytes());
    expected.extend(t2("0 rmoveto endchar"));
    assert_eq!(g.charstring, expected);
    assert!(to_type2(&charstring("0 500 hsbw 5 callsubr endchar"), &[]).is_none());
    assert!(to_type2(&charstring("0 500 hsbw rlineto endchar"), &[]).is_none());
    assert!(to_type2(&[12, 99], &[]).is_none());
    // A reserved code (15) between operators is skipped.
    let g = to_type2(&[139, 247, 170, 13, 139, 139, 15, 14], &[]).unwrap();
    assert_eq!(g.charstring, t2("278 0 hmoveto endchar"));
}

// -------------------------------------------------------------------- cff

fn glyph(name: &str, cs: &[u8]) -> cff::Glyph {
    cff::Glyph {
        name: name.as_bytes().to_vec(),
        charstring: cs.to_vec(),
    }
}

#[test]
fn written_font_parses_with_names_encoding_and_dicts() {
    let glyphs = vec![
        glyph(".notdef", &[139, 14]),
        glyph("A", &[139, 14]),
        glyph("uni2202", &[139, 14]),
    ];
    let enc = codes(&[(65, "A"), (97, "A"), (100, "uni2202")]);
    let private = vec![
        (b"BlueValues".to_vec(), decimals("-10 0 700 710")),
        (b"StdHW".to_vec(), decimals("30")),
        (b"BlueScale".to_vec(), decimals("0.039625")),
    ];
    let matrix = decimals("0.001 0 0 0.001 0 0");
    let bbox = decimals("-5 0 400 700");
    let font = cff::Font {
        name: b"Tiny Font/1",
        font_matrix: Some(&matrix),
        font_bbox: Some(&bbox),
        glyphs: &glyphs,
        encoding: Some(&enc),
        private: &private,
    };
    let bytes = cff::write(&font).unwrap();
    let cff = CffFontRef::new_cff(&bytes, 0, None).unwrap();
    assert_eq!(cff.num_glyphs(), 3);
    assert!(!cff.is_cid());
    let charset = cff.charset().unwrap();
    let name = |gid: u32| {
        cff.string(charset.string_id(GlyphId::new(gid)).unwrap())
            .unwrap()
            .to_vec()
    };
    assert_eq!(name(1), b"A");
    assert_eq!(name(2), b"uni2202");
    let encoding = cff.encoding().unwrap();
    assert_eq!(encoding.map(65).unwrap().to_u32(), 1);
    assert_eq!(encoding.map(97).unwrap().to_u32(), 1);
    assert_eq!(encoding.map(100).unwrap().to_u32(), 2);
    assert!(encoding.map(66).is_none());
    let meta = cff.metadata().unwrap();
    assert_eq!(meta.bbox().x_max, read_fonts::types::Fixed::from_i32(400));
    assert_eq!(cff.upem(), 1000);
}

#[test]
fn glyphs_are_ordered_for_the_encoding() {
    let glyphs = vec![
        glyph(".notdef", &[14]),
        glyph("z", &[14]),
        glyph("b", &[14]),
        glyph("a", &[14]),
    ];
    let enc = codes(&[(98, "b"), (97, "a")]);
    let sorted = cff::sort_glyphs(glyphs, Some(&enc));
    let names: Vec<&[u8]> = sorted.iter().map(|g| g.name.as_slice()).collect();
    assert_eq!(names, [b".notdef" as &[u8], b"a", b"b", b"z"]);
}

#[test]
fn numbers_encode_in_every_form() {
    let mut out = Vec::new();
    for v in [
        "0", "107", "108", "1131", "-1131", "-1132", "32767", "40000", "0.5", "-0.001", "1e-5",
    ] {
        cff::number(decimal(v), &mut out);
    }
    assert_eq!(out[0], 139);
    assert_eq!(&out[1..2], &[246]);
    assert_eq!(&out[2..4], &[247, 0]);
    assert_eq!(&out[4..6], &[250, 255]);
    assert_eq!(&out[6..8], &[254, 255]);
    assert_eq!(&out[8..11], &[28, 0xFB, 0x94]);
    assert_eq!(&out[11..14], &[28, 0x7F, 0xFF]);
    assert_eq!(&out[14..19], &[29, 0, 0, 0x9C, 0x40]);
    // 0.5 -> nibbles 0 . 5 f  -> 0x0a 0x5f
    assert_eq!(&out[19..22], &[30, 0x0A, 0x5F]);
    // -0.001 -> e 0 . 0 0 1 f, padded to e0 a0 01 ff
    assert_eq!(&out[22..27], &[30, 0xE0, 0xA0, 0x01, 0xFF]);
    assert_eq!(out[27], 30);
    assert!(cff::write(&cff::Font {
        name: b"x",
        font_matrix: None,
        font_bbox: None,
        glyphs: &vec![glyph("A", &[14])],
        encoding: None,
        private: &vec![],
    })
    .is_none());
}

#[test]
fn an_index_holds_its_items_in_order() {
    let items = vec![b"ab".to_vec(), b"".to_vec(), b"c".to_vec()];
    assert_eq!(
        cff::index(&items),
        [0, 3, 1, 1, 3, 3, 4, b'a', b'b', b'c'].to_vec()
    );
    assert_eq!(cff::index(&vec![]), vec![0, 0]);
}

// ---------------------------------------------------------------- convert

/// Collects an outline as a list of commands with rounded coordinates,
/// the same way from both parsers so the two can be compared.
#[derive(Default, Debug, PartialEq)]
struct Path(Vec<String>);

impl Path {
    fn put(&mut self, op: &str, points: &[f32]) {
        let mut line = op.to_string();
        for p in points {
            line += &format!(" {p:.0}");
        }
        self.0.push(line);
    }
}

impl hayro_font::OutlineBuilder for Path {
    fn move_to(&mut self, x: f32, y: f32) {
        self.put("M", &[x, y]);
    }
    fn line_to(&mut self, x: f32, y: f32) {
        self.put("L", &[x, y]);
    }
    fn quad_to(&mut self, x1: f32, y1: f32, x: f32, y: f32) {
        self.put("Q", &[x1, y1, x, y]);
    }
    fn curve_to(&mut self, x1: f32, y1: f32, x2: f32, y2: f32, x: f32, y: f32) {
        self.put("C", &[x1, y1, x2, y2, x, y]);
    }
    fn close(&mut self) {
        self.put("Z", &[]);
    }
}

impl read_fonts::model::glyph::outline::PathSink for Path {
    fn move_to(&mut self, x: f32, y: f32) {
        self.put("M", &[x, y]);
    }
    fn line_to(&mut self, x: f32, y: f32) {
        self.put("L", &[x, y]);
    }
    fn quad_to(&mut self, x1: f32, y1: f32, x: f32, y: f32) {
        self.put("Q", &[x1, y1, x, y]);
    }
    fn curve_to(&mut self, x1: f32, y1: f32, x2: f32, y2: f32, x: f32, y: f32) {
        self.put("C", &[x1, y1, x2, y2, x, y]);
    }
    fn close(&mut self) {
        self.put("Z", &[]);
    }
}

#[test]
fn converted_font_matches_the_type1_outline() {
    let program = tiny_type1(false);
    let cff_bytes = type1_to_cff(&program).unwrap();
    let cff = CffFontRef::new_cff(&cff_bytes, 0, None).unwrap();
    assert_eq!(cff.num_glyphs(), 2);
    let subfont = cff.subfont(0, &[]).unwrap();
    let mut from_cff = Path::default();
    cff.draw(&subfont, GlyphId::new(1), &[], None, &mut from_cff)
        .unwrap();
    let t1 = hayro_font::type1::Table::parse(&program).unwrap();
    let mut from_t1 = Path::default();
    t1.outline("A", &mut from_t1).unwrap();
    assert_eq!(from_cff, from_t1);
    assert!(
        from_cff.0.contains(&"L 450 400".to_string()),
        "{from_cff:?}"
    );
    // The built-in encoding survives: code 65 selects A.
    assert_eq!(cff.encoding().unwrap().map(65).unwrap().to_u32(), 1);
    assert!(type1_to_cff(b"not a type 1 font").is_none());
}

// ----------------------------------------------------------------- glyphs

#[test]
fn cid_fonts_go_through_cmap_and_map() {
    let cff = tiny_cff();
    let strings = [vec![0, 0], vec![0, 1]];
    let addressing = Addressing::Cid {
        cmap: CMap::identity(),
        cid_to_gid: CidToGid::Identity,
    };
    assert_eq!(
        used(&cff, Kind::Cff, &addressing, &strings),
        Some(ids(&[0, 1]))
    );
    let addressing = Addressing::Cid {
        cmap: CMap::identity(),
        cid_to_gid: CidToGid::Table(vec![0, 0, 0, 1, 0, 1]),
    };
    let strings = [vec![0, 2]];
    assert_eq!(used(&cff, Kind::Cff, &addressing, &strings), Some(ids(&[1])));
}

#[test]
fn simple_cff_by_name_and_builtin_encoding() {
    // The tiny CFF has the standard charset (glyph 1 is "space") and
    // the standard encoding, where code 32 is space.
    let cff = tiny_cff();
    let enc = SimpleEncoding {
        base: Some(Base::WinAnsi),
        differences: CodeNames::new(),
        symbolic: false,
    };
    let strings = [b" ".to_vec()];
    assert_eq!(
        used(&cff, Kind::Cff, &Addressing::Simple(enc), &strings),
        Some(ids(&[1]))
    );
    let enc = SimpleEncoding {
        base: None,
        differences: codes(&[(65, "space")]),
        symbolic: true,
    };
    let strings = [b"A".to_vec()];
    assert_eq!(
        used(&cff, Kind::Cff, &Addressing::Simple(enc), &strings),
        Some(ids(&[1]))
    );
    assert!(used(
        b"junk",
        Kind::Cff,
        &Addressing::Simple(SimpleEncoding::new()),
        &strings
    )
    .is_none());
}

#[test]
fn encoding_names_follow_differences_then_base() {
    let enc = SimpleEncoding {
        base: Some(Base::WinAnsi),
        differences: codes(&[(65, "bullet")]),
        symbolic: false,
    };
    assert_eq!(enc.name(65), Some(b"bullet".to_vec()));
    assert_eq!(enc.name(66), Some(b"B".to_vec()));
    assert_eq!(enc.name(0x80), Some(b"Euro".to_vec()));
    let builtin = SimpleEncoding {
        base: None,
        differences: CodeNames::new(),
        symbolic: true,
    };
    assert_eq!(builtin.name(66), None);
    let standard = SimpleEncoding::new();
    assert_eq!(standard.name(0x27), Some(b"quoteright".to_vec()));
}

// ----------------------------------------------------------------- subset

#[test]
fn a_subset_is_planned_on_a_wrapped_font_and_taken_out_again() {
    let cff = tiny_cff();
    let p = plan(&cff, Program::Cff, &ids(&[1])).unwrap();
    assert_eq!(p.glyphs, ids(&[0, 1]));
    assert!(is_sfnt(&p.font));
    let out = finish(p.font, Program::Cff).unwrap();
    let font = CffFontRef::new_cff(&out, 0, None).unwrap();
    assert_eq!(font.num_glyphs(), 2);
    assert!(plan(b"garbage", Program::Cff, &ids(&[])).is_none());
}
