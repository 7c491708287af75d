use compress_pdf::document::Pdf;
use compress_pdf::images::bitonal::{
    ccitt_settings, check_jbig2_size, encode_g4, encode_jbig2, push_row, BitCollector, CcittMode,
};
use compress_pdf::images::classify::{
    read_info, Class, ColorModel, ColorSpace, ImageInfo, Mapping, MappingKind,
};
use compress_pdf::images::decode::{apply_tables, decode, Decoded, Rows};
use compress_pdf::images::encode::{flate, jpeg_channels, jpeg_encoded};
use compress_pdf::images::function::{grid_index, read_bits, Function, Quantity};
use compress_pdf::images::jp2::palette_usable;
use compress_pdf::images::postscript::{Action, Cell, Machine, Operator, Program, PsError};
use compress_pdf::images::raster::{Format, Raster};
use compress_pdf::images::rewrite;
use compress_pdf::images::transform::{
    cmyk_to_rgb, crop, downsample, icc_to_rgb, neugebauer, reduce, PixelRect,
};
use compress_pdf::object::{DataStream, Dict, StringForm, Value};

fn dict(entries: Vec<(&str, Value)>) -> Dict {
    let mut d = Dict::new();
    for (k, v) in entries {
        d.set(k.as_bytes(), v);
    }
    d
}

fn name(n: &str) -> Value {
    Value::Name(n.as_bytes().to_vec())
}

fn whole(i: i64) -> Value {
    Value::Integer(i)
}

fn ints(list: &[i64]) -> Value {
    Value::Array(list.iter().map(|i| Value::Integer(*i)).collect())
}

fn stream(entries: Vec<(&str, Value)>, content: Vec<u8>) -> DataStream {
    DataStream {
        dict: dict(entries),
        content,
    }
}

// ----------------------------------------------------------------- raster

#[test]
fn raster_bit_packing_round_trips() {
    let gray = Raster::new(
        10,
        2,
        Format::Gray8,
        vec![
            0, 255, 0, 255, 0, 255, 0, 255, 0, 255, //
            255, 255, 255, 255, 255, 0, 0, 0, 0, 0,
        ],
    )
    .unwrap();
    let packed = gray.gray8_to_gray1();
    assert_eq!(
        packed.data,
        vec![0b0101_0101, 0b0100_0000, 0b1111_1000, 0b0000_0000]
    );
    assert_eq!(packed.gray1_to_gray8(), gray);
}

#[test]
fn raster_size_is_validated() {
    assert!(Raster::new(3, 2, Format::Rgb8, vec![0; 18]).is_some());
    assert!(Raster::new(3, 2, Format::Rgb8, vec![0; 17]).is_none());
    assert!(Raster::new(0, 2, Format::Gray8, vec![]).is_none());
}

#[test]
fn transform_bit_packing_round_trips() {
    let gray = Raster::new(
        10,
        2,
        Format::Gray8,
        vec![
            0, 255, 0, 255, 0, 255, 0, 255, 0, 255, //
            255, 255, 255, 255, 255, 0, 0, 0, 0, 0,
        ],
    )
    .unwrap();
    let packed = gray.gray8_to_gray1();
    assert_eq!(
        packed.data,
        vec![0b0101_0101, 0b0100_0000, 0b1111_1000, 0b0000_0000]
    );
    assert_eq!(packed.gray1_to_gray8(), gray);
}

#[test]
fn transform_size_is_validated() {
    assert!(Raster::new(3, 2, Format::Rgb8, vec![0; 18]).is_some());
    assert!(Raster::new(3, 2, Format::Rgb8, vec![0; 17]).is_none());
    assert!(Raster::new(0, 2, Format::Gray8, vec![]).is_none());
}

// -------------------------------------------------------------- transform

#[test]
fn gray_downsample_averages() {
    let data: Vec<u8> = (0..16).map(|i| if i % 2 == 0 { 0 } else { 200 }).collect();
    let r = Raster::new(4, 4, Format::Gray8, data).unwrap();
    let d = downsample(&r, 2, 2).unwrap();
    assert_eq!((d.width, d.height), (2, 2));
    assert!(d.data.iter().all(|&v| v > 60 && v < 140), "{:?}", d.data);
}

#[test]
fn bitonal_round_trips_through_gray() {
    // 8x2 all white -> 4x1 all white.
    let r = Raster::new(8, 2, Format::Gray1, vec![0xFF, 0xFF]).unwrap();
    let d = downsample(&r, 4, 1).unwrap();
    assert_eq!(d.format, Format::Gray1);
    assert_eq!(d.data, vec![0xF0]);
}

#[test]
fn reduction_rules() {
    // Gray RGB becomes gray, then two-level gray becomes bitonal.
    let rgb = Raster::new(2, 1, Format::Rgb8, vec![0, 0, 0, 255, 255, 255]).unwrap();
    let out = reduce(&rgb).unwrap();
    assert_eq!(out.format, Format::Gray1);
    assert_eq!(out.data, vec![0b0100_0000]);
    // K-only CMYK becomes gray.
    let cmyk = Raster::new(1, 1, Format::Cmyk8, vec![0, 0, 0, 55]).unwrap();
    assert_eq!(reduce(&cmyk).unwrap().data, vec![200]);
    // Flat color image collapses to one pixel.
    let flat = Raster::new(4, 4, Format::Rgb8, [10u8, 20, 30].repeat(16)).unwrap();
    let out = reduce(&flat).unwrap();
    assert_eq!(
        (out.width, out.height, out.data.as_slice()),
        (1, 1, &[10u8, 20, 30][..])
    );
    // Nothing applies to a real color image.
    let color = Raster::new(2, 1, Format::Rgb8, vec![1, 2, 3, 4, 5, 6]).unwrap();
    assert!(reduce(&color).is_none());
}

#[test]
fn crop_extracts_the_window() {
    let data: Vec<u8> = (0..16).collect();
    let r = Raster::new(4, 4, Format::Gray8, data).unwrap();
    let c = crop(
        &r,
        PixelRect {
            x: 1,
            y: 2,
            w: 2,
            h: 2,
        },
    )
    .unwrap();
    assert_eq!(c.data, vec![9, 10, 13, 14]);
    let bits = Raster::new(8, 2, Format::Gray1, vec![0b1010_1010, 0b0101_0101]).unwrap();
    let c = crop(
        &bits,
        PixelRect {
            x: 1,
            y: 0,
            w: 3,
            h: 2,
        },
    )
    .unwrap();
    assert_eq!(c.data, vec![0b0100_0000, 0b1010_0000]);
    let outside = PixelRect {
        x: 3,
        y: 0,
        w: 2,
        h: 1,
    };
    assert!(crop(&r, outside).is_none());
}

#[test]
fn bitonal_downsampling_keeps_thin_ink() {
    // A one-pixel black line on white, and a one-pixel white line on
    // black: both survive a 2x reduction, thickened rather than lost.
    let mut white = vec![255u8; 16 * 16];
    for x in 0..16 {
        white[5 * 16 + x] = 0;
    }
    let line = Raster::new(16, 16, Format::Gray8, white)
        .unwrap()
        .gray8_to_gray1();
    let small = downsample(&line, 8, 8).unwrap().gray1_to_gray8();
    assert!(
        small.data[2 * 8..3 * 8].iter().all(|v| *v == 0),
        "{:?}",
        small.data
    );
    assert!(small.data[..2 * 8].iter().all(|v| *v == 255));
    let mut black = vec![0u8; 16 * 16];
    for x in 0..16 {
        black[5 * 16 + x] = 255;
    }
    let line = Raster::new(16, 16, Format::Gray8, black)
        .unwrap()
        .gray8_to_gray1();
    let small = downsample(&line, 8, 8).unwrap().gray1_to_gray8();
    assert!(
        small.data[2 * 8..3 * 8].iter().all(|v| *v == 255),
        "{:?}",
        small.data
    );
    assert!(small.data[..2 * 8].iter().all(|v| *v == 0));
}

#[test]
fn the_same_size_is_left_alone() {
    let r = Raster::new(2, 2, Format::Gray8, vec![0; 4]).unwrap();
    assert!(downsample(&r, 2, 2).is_none());
    assert!(downsample(&r, 0, 2).is_none());
}

#[test]
fn primaries_reproduce_the_table() {
    assert_eq!(neugebauer([0, 0, 0, 0]), [254, 254, 254]);
    assert_eq!(neugebauer([255, 0, 0, 0]), [0, 175, 239]);
    assert_eq!(neugebauer([0, 255, 0, 0]), [236, 38, 143]);
    assert_eq!(neugebauer([0, 0, 255, 0]), [255, 242, 17]);
    assert_eq!(neugebauer([255, 255, 255, 255]), [32, 31, 31]);
}

#[test]
fn half_cyan_is_halfway() {
    // Multilinear: 50% C is the midpoint of white and C.
    let [r, g, b] = neugebauer([128, 0, 0, 0]);
    assert!(
        (120..=135).contains(&r) && (210..=218).contains(&g) && (244..=250).contains(&b),
        "{r} {g} {b}"
    );
}

#[test]
fn srgb_profile_round_trips_through_moxcms() {
    // sRGB -> sRGB through the profile machinery is the identity.
    let srgb = moxcms::ColorProfile::new_srgb();
    let bytes = srgb.encode().unwrap();
    let r = Raster::new(2, 1, Format::Rgb8, vec![10, 200, 30, 255, 0, 128]).unwrap();
    let out = icc_to_rgb(&r, &bytes).unwrap();
    for (a, b) in out.data.iter().zip(&r.data) {
        assert!((i16::from(*a) - i16::from(*b)).abs() <= 1, "{:?}", out.data);
    }
    assert!(icc_to_rgb(&r, b"no profile").is_none());
}

#[test]
fn raster_conversion_changes_format() {
    let r = Raster::new(2, 1, Format::Cmyk8, vec![0, 0, 0, 0, 0, 0, 0, 255]).unwrap();
    let rgb = cmyk_to_rgb(&r).unwrap();
    assert_eq!(rgb.format, Format::Rgb8);
    assert_eq!(rgb.data, vec![254, 254, 254, 55, 52, 53]);
    let gray = Raster::new(1, 1, Format::Gray8, vec![0]).unwrap();
    assert!(cmyk_to_rgb(&gray).is_none());
}

#[test]
fn reducing_never_makes_an_image_larger() {
    let gray = Raster::new(4, 1, Format::Gray8, vec![0, 255, 255, 0]).unwrap();
    let out = reduce(&gray).unwrap();
    assert_eq!(out.format, Format::Gray1);
    assert!(out.data.len() <= gray.data.len());
    assert_eq!(out.gray1_to_gray8(), gray);
}

// ----------------------------------------------------------------- encode

fn lopdf_stream(encoded: &compress_pdf::images::encode::Encoded) -> lopdf::Stream {
    let mut d = lopdf::Dictionary::new();
    d.set("Filter", lopdf::Object::Name(b"FlateDecode".to_vec()));
    if let Some(p) = &encoded.decode_parms {
        let mut parms = lopdf::Dictionary::new();
        for (k, v) in &p.entries {
            parms.set(k.clone(), v.as_i64().unwrap());
        }
        d.set("DecodeParms", parms);
    }
    lopdf::Stream::new(d, encoded.bytes.clone())
}

#[test]
fn flate_with_predictor_round_trips_through_lopdf() {
    // A smooth gradient, where predictors win.
    let data: Vec<u8> = (0..64u32)
        .flat_map(|y| (0..64u32).map(move |x| ((x + y) * 2) as u8))
        .collect();
    let raster = Raster::new(64, 64, Format::Gray8, data.clone()).unwrap();
    let enc = flate(&raster).unwrap();
    assert!(
        enc.decode_parms.is_some(),
        "predictor should win on a gradient"
    );
    let stream = lopdf_stream(&enc);
    assert_eq!(stream.decompressed_content().unwrap(), data);
}

#[test]
fn noise_round_trips_whatever_predictor_wins() {
    let data: Vec<u8> = (0..4096u32)
        .map(|i| (i.wrapping_mul(2654435761) >> 13) as u8)
        .collect();
    let raster = Raster::new(64, 64, Format::Gray8, data.clone()).unwrap();
    let enc = flate(&raster).unwrap();
    let stream = lopdf_stream(&enc);
    assert_eq!(stream.decompressed_content().unwrap(), data);
}

#[test]
fn jpeg_takes_continuous_tone_only() {
    assert_eq!(jpeg_channels(Format::Gray8), Some(1));
    assert_eq!(jpeg_channels(Format::Rgb8), Some(3));
    assert_eq!(jpeg_channels(Format::Cmyk8), Some(4));
    assert_eq!(jpeg_channels(Format::Gray1), None);
    assert_eq!(jpeg_channels(Format::Indexed8), None);
    let e = jpeg_encoded(vec![0xFF, 0xD8]);
    assert_eq!(e.codec, "DCTDecode");
    assert!(e.filter.unwrap().is_name("DCTDecode"));
}

#[test]
fn a_rewritten_stream_says_what_it_holds() {
    let raster = Raster::new(64, 64, Format::Gray8, vec![7; 4096]).unwrap();
    let enc = flate(&raster).unwrap();
    let mut s = stream(
        vec![
            ("Width", whole(9)),
            ("Height", whole(9)),
            ("Filter", name("DCTDecode")),
            ("Decode", ints(&[1, 0])),
        ],
        vec![1, 2, 3],
    );
    rewrite::apply(&mut s, &raster, &enc);
    assert_eq!(s.dict.get(b"Width").unwrap().as_i64(), Some(64));
    assert_eq!(s.dict.get(b"Height").unwrap().as_i64(), Some(64));
    assert!(s.dict.get(b"Filter").unwrap().is_name("FlateDecode"));
    assert_eq!(
        s.dict.get(b"Length").unwrap().as_i64(),
        Some(enc.bytes.len() as i64)
    );
    assert_eq!(s.content, enc.bytes);
}

// ---------------------------------------------------------------- bitonal

/// A 64x16 test pattern: black diagonal band and a vertical bar.
fn pattern() -> Raster {
    let mut gray = vec![255u8; 64 * 16];
    for y in 0..16 {
        for x in 0..64 {
            if (x + y) % 9 < 3 || (30..34).contains(&x) {
                gray[y * 64 + x] = 0;
            }
        }
    }
    Raster::new(64, 16, Format::Gray8, gray)
        .unwrap()
        .gray8_to_gray1()
}

/// Hands a decoder's pixels to a collector.
struct Sink {
    collector: BitCollector,
    settings: compress_pdf::images::bitonal::CcittSettings,
}

impl hayro_ccitt::Decoder for Sink {
    fn push_row(&mut self, changes: &[u32]) {
        push_row(&mut self.collector, &self.settings, changes);
    }
}

fn decode_ccitt(data: &[u8], parms: Option<&Dict>, width: u32, height: u32) -> Raster {
    let settings = ccitt_settings(parms, width, height).unwrap();
    let mut sink = Sink {
        collector: BitCollector::new(width, height),
        settings,
    };
    let told = hayro_ccitt::DecodeSettings {
        columns: settings.columns,
        rows: settings.rows,
        end_of_block: settings.end_of_block,
        end_of_line: settings.end_of_line,
        rows_are_byte_aligned: settings.rows_are_byte_aligned,
        encoding: match settings.mode {
            CcittMode::Group4 => hayro_ccitt::EncodingMode::Group4,
            CcittMode::Group3OneD => hayro_ccitt::EncodingMode::Group3_1D,
            CcittMode::Group3TwoD(_) => hayro_ccitt::EncodingMode::Group3_2D,
        },
        strict: false,
    };
    let mut context = hayro_ccitt::DecoderContext::new(told);
    hayro_ccitt::decode(data, &mut sink, &mut context).unwrap();
    sink.collector.finish().unwrap()
}

#[test]
fn g4_round_trips_through_hayro_ccitt() {
    let raster = pattern();
    let enc = encode_g4(&raster).unwrap();
    let parms = enc.decode_parms.unwrap();
    let back = decode_ccitt(&enc.bytes, Some(&parms), 64, 16);
    assert_eq!(back, raster);
}

#[test]
fn wide_rows_encode_too() {
    let white = Raster {
        width: 40000,
        height: 2,
        format: Format::Gray1,
        data: vec![255; 10000],
    };
    let enc = encode_g4(&white).unwrap();
    let back = decode_ccitt(&enc.bytes, Some(&enc.decode_parms.unwrap()), 40000, 2);
    assert_eq!(back, white);
}

#[test]
fn reduced_images_do_not_reduce_again() {
    let rgb = Raster {
        width: 2,
        height: 1,
        format: Format::Rgb8,
        data: vec![0, 0, 0, 255, 255, 255],
    };
    let once = reduce(&rgb).unwrap();
    assert_eq!(once.format, Format::Gray1);
    assert!(reduce(&once).is_none());
}

#[test]
fn colors_run_evenly_along_an_ink() {
    let mut last = neugebauer([0, 40, 80, 10]);
    let end = neugebauer([255, 40, 80, 10]);
    for cyan in 1..=255u8 {
        let here = neugebauer([cyan, 40, 80, 10]);
        for i in 0..3 {
            let (low, high) = (last[i].min(end[i]), last[i].max(end[i]));
            assert!(low <= here[i] && here[i] <= high);
        }
        last = here;
    }
}

#[test]
fn black_is_1_is_honored_on_decode() {
    let raster = pattern();
    let enc = encode_g4(&raster).unwrap();
    let parms = dict(vec![
        ("K", whole(-1)),
        ("Columns", whole(64)),
        ("Rows", whole(16)),
        ("BlackIs1", Value::Boolean(true)),
    ]);
    let back = decode_ccitt(&enc.bytes, Some(&parms), 64, 16);
    let inverted: Vec<u8> = raster.data.iter().map(|b| !b).collect();
    assert_eq!(back.data, inverted);
}

struct Bits(BitCollector);

impl hayro_jbig2::Decoder for Bits {
    fn push_pixel(&mut self, black: bool) {
        self.0.push(!black);
    }
    fn push_pixel_chunk(&mut self, black: bool, chunk_count: u32) {
        self.0.push_run(!black, chunk_count as usize * 8);
    }
    fn next_line(&mut self) {
        self.0.end_line();
    }
}

#[test]
fn jbig2_round_trips_through_hayro_jbig2() {
    let raster = pattern();
    let enc = encode_jbig2(&raster).unwrap();
    let told = hayro_jbig2::DecodeSettings::default();
    let page = hayro_jbig2::Page::new_embedded(&enc.bytes, None, &told).unwrap();
    assert!(check_jbig2_size(page.width(), page.height(), 64, 16).is_ok());
    let mut bits = Bits(BitCollector::new(64, 16));
    page.decode(&mut bits).unwrap();
    let back = bits.0.finish().unwrap();
    assert_eq!(back, raster);
}

#[test]
fn missing_rows_and_wrong_sizes_are_reported() {
    let mut bits = BitCollector::new(8, 2);
    bits.push_run(true, 8);
    bits.end_line();
    assert_eq!(bits.finish().unwrap_err().0, "decoded 1 of 2 rows");
    assert_eq!(
        check_jbig2_size(8, 1, 8, 2).unwrap_err().0,
        "JBIG2 codestream is 8x1 but the dictionary says 8x2"
    );
    assert_eq!(
        ccitt_settings(None, 64, 16).unwrap_err().0,
        "CCITT Columns differs from Width"
    );
}

// --------------------------------------------------------------- classify

fn image(entries: Vec<(&str, Value)>) -> Dict {
    let mut d = dict(vec![("Width", whole(4)), ("Height", whole(4))]);
    for (k, v) in entries {
        d.set(k.as_bytes(), v);
    }
    d
}

#[test]
fn classes_follow_bits_and_color_space() {
    let doc = Pdf::with_version("1.5");
    let gray1 = read_info(
        &doc,
        &image(vec![
            ("BitsPerComponent", whole(1)),
            ("ColorSpace", name("DeviceGray")),
        ]),
    )
    .unwrap();
    assert_eq!(gray1.class(), Class::Bitonal);
    let stencil = read_info(&doc, &image(vec![("ImageMask", Value::Boolean(true))])).unwrap();
    assert_eq!(stencil.class(), Class::Bitonal);
    let rgb = read_info(
        &doc,
        &image(vec![
            ("BitsPerComponent", whole(8)),
            ("ColorSpace", name("DeviceRGB")),
            ("Filter", name("DCTDecode")),
        ]),
    )
    .unwrap();
    assert_eq!(rgb.class(), Class::Color);
    assert_eq!(rgb.image_codec(), Some(&b"DCTDecode".to_vec()));
    let idx = read_info(
        &doc,
        &image(vec![
            ("BitsPerComponent", whole(8)),
            (
                "ColorSpace",
                Value::Array(vec![
                    name("Indexed"),
                    name("DeviceRGB"),
                    whole(15),
                    Value::String(b"x".to_vec(), StringForm::Literal),
                ]),
            ),
        ]),
    )
    .unwrap();
    assert_eq!(idx.class(), Class::Indexed);
}

fn pixel(space: Value) -> Dict {
    dict(vec![
        ("Width", whole(1)),
        ("Height", whole(1)),
        ("BitsPerComponent", whole(8)),
        ("ColorSpace", space),
    ])
}

#[test]
fn unknown_color_spaces_are_other() {
    let doc = Pdf::with_version("1.5");
    let info = read_info(&doc, &pixel(Value::Array(vec![name("Pattern")]))).unwrap();
    assert!(matches!(info.color, ColorSpace::Other(ref s) if s == "Pattern"));
    let info = read_info(
        &doc,
        &pixel(Value::Array(vec![
            name("Separation"),
            name("Spot"),
            name("Pattern"),
            whole(1),
        ])),
    )
    .unwrap();
    assert!(matches!(info.color, ColorSpace::Other(_)));
}

#[test]
fn indirect_filters_and_wrapped_names_resolve() {
    let mut doc = Pdf::with_version("1.5");
    let filter = doc.add_object(name("DCTDecode"));
    let mut d = pixel(Value::Array(vec![name("DeviceRGB")]));
    d.set(b"Filter", Value::Reference(filter));
    let info = read_info(&doc, &d).unwrap();
    assert!(matches!(info.color, ColorSpace::Device(ColorModel::Rgb)));
    assert_eq!(info.image_codec(), Some(&b"DCTDecode".to_vec()));
}

#[test]
fn mapped_spaces_take_the_alternate_model() {
    let doc = Pdf::with_version("1.5");
    let sep = read_info(
        &doc,
        &pixel(Value::Array(vec![
            name("Separation"),
            name("Spot"),
            name("DeviceGray"),
            whole(1),
        ])),
    )
    .unwrap();
    assert!(matches!(
        sep.color,
        ColorSpace::Mapped {
            components: 1,
            model: ColorModel::Gray,
            ..
        }
    ));
    assert_eq!(sep.class(), Class::Gray);
    let devn = read_info(
        &doc,
        &pixel(Value::Array(vec![
            name("DeviceN"),
            Value::Array(vec![name("A"), name("B")]),
            name("DeviceCMYK"),
            whole(1),
        ])),
    )
    .unwrap();
    assert!(matches!(
        devn.color,
        ColorSpace::Mapped {
            components: 2,
            model: ColorModel::Cmyk,
            ..
        }
    ));
    assert_eq!(devn.class(), Class::Color);
    let lab = read_info(
        &doc,
        &pixel(Value::Array(vec![
            name("Lab"),
            Value::Dictionary(Dict::new()),
        ])),
    )
    .unwrap();
    assert!(matches!(
        lab.color,
        ColorSpace::Mapped {
            components: 3,
            model: ColorModel::Rgb,
            ..
        }
    ));
}

fn linear(c0: &[i64], c1: &[i64]) -> Vec<(&'static str, Value)> {
    vec![
        ("FunctionType", whole(2)),
        ("Domain", ints(&[0, 1])),
        ("C0", ints(c0)),
        ("C1", ints(c1)),
        ("N", whole(1)),
    ]
}

#[test]
fn an_indexed_space_over_a_mapped_base_keeps_its_entries() {
    let mut doc = Pdf::with_version("1.5");
    let f = doc.add_object(Value::Stream(stream(linear(&[1], &[0]), vec![])));
    let sep = Value::Array(vec![
        name("Separation"),
        name("Spot"),
        name("DeviceGray"),
        Value::Reference(f),
    ]);
    let info = read_info(
        &doc,
        &pixel(Value::Array(vec![
            name("Indexed"),
            sep,
            whole(2),
            Value::String(vec![0u8, 128, 255], StringForm::Literal),
        ])),
    )
    .unwrap();
    assert_eq!(info.class(), Class::Indexed);
    match info.color {
        ColorSpace::Unmapped {
            base,
            hival,
            entries,
            ..
        } => {
            assert_eq!((base, hival), (ColorModel::Gray, 2));
            assert_eq!(entries, vec![0, 128, 255]);
        }
        other => panic!("{other:?}"),
    }
}

#[test]
fn unsupported_spaces_are_none() {
    let doc = Pdf::with_version("1.5");
    assert!(Mapping::build(&doc, &name("Pattern")).is_none());
    let cs = Value::Array(vec![name("Separation"), name("X"), name("Pattern"), whole(1)]);
    assert!(Mapping::build(&doc, &cs).is_none());
}

#[test]
fn mappings_follow_the_space() {
    let mut doc = Pdf::with_version("1.5");
    let f = doc.add_object(Value::Stream(stream(linear(&[1], &[0]), vec![])));
    let cs = Value::Array(vec![
        name("Separation"),
        name("Spot"),
        name("DeviceGray"),
        Value::Reference(f),
    ]);
    let m = Mapping::build(&doc, &cs).unwrap();
    assert_eq!((m.components, m.model), (1, ColorModel::Gray));
    assert!(matches!(m.kind, MappingKind::Tint { .. }));
    let lab = Value::Array(vec![
        name("Lab"),
        Value::Dictionary(dict(vec![(
            "Range",
            ints(&[-128, 127, -128, 127]),
        )])),
    ]);
    let m = Mapping::build(&doc, &lab).unwrap();
    assert_eq!((m.components, m.model), (3, ColorModel::Rgb));
    let whole: Vec<i64> = m
        .default_decode()
        .iter()
        .map(|q| match q {
            Quantity::Whole(i) => *i,
            Quantity::Text(_) => panic!("not whole"),
        })
        .collect();
    assert_eq!(whole, vec![0, 100, -128, 127, -128, 127]);
}

// ----------------------------------------------------------------- decode

fn info(width: u32, height: u32, bpc: u8, color: ColorSpace) -> ImageInfo {
    ImageInfo {
        width,
        height,
        bpc,
        color,
        filters: vec![],
        decode: None,
        is_stencil: false,
        has_color_key_mask: false,
        icc_profile: None,
    }
}

fn decoded(content: Vec<u8>, i: &ImageInfo) -> Raster {
    let doc = Pdf::with_version("1.5");
    match decode(&doc, &stream(vec![], content), i) {
        Ok(Decoded::Done(r)) => r,
        _ => panic!("not decoded"),
    }
}

#[test]
fn four_bit_gray_scales_to_full_range() {
    // Two pixels per byte: 0x0 and 0xF.
    let r = decoded(
        vec![0x0F, 0xF0],
        &info(2, 2, 4, ColorSpace::Device(ColorModel::Gray)),
    );
    assert_eq!(r.format, Format::Gray8);
    assert_eq!(r.data, vec![0, 255, 255, 0]);
}

#[test]
fn sixteen_bit_rgb_keeps_the_high_byte() {
    let r = decoded(
        vec![0x12, 0x34, 0xAB, 0xCD, 0xFF, 0x00],
        &info(1, 1, 16, ColorSpace::Device(ColorModel::Rgb)),
    );
    assert_eq!(r.data, vec![0x12, 0xAB, 0xFF]);
}

#[test]
fn indexed_indices_are_not_scaled() {
    let cs = ColorSpace::Indexed {
        base: ColorModel::Rgb,
        hival: 3,
        palette: None,
    };
    let r = decoded(vec![0b0001_0010], &info(2, 1, 4, cs));
    assert_eq!(r.format, Format::Indexed8);
    assert_eq!(r.data, vec![1, 2]);
}

#[test]
fn inverted_decode_flips_samples() {
    let mut i = info(2, 1, 8, ColorSpace::Device(ColorModel::Gray));
    let pair = |a: i64, b: i64| vec![Quantity::Whole(a), Quantity::Whole(b)];
    let doc = Pdf::with_version("1.5");
    let run = |i: &ImageInfo, low: f32, high: f32| {
        let s = stream(vec![], vec![0, 255]);
        match decode(&doc, &s, i) {
            Ok(Decoded::Done(r)) => r.data,
            Ok(Decoded::Tables(r)) => {
                let table: Vec<u8> = (0..=255u8)
                    .map(|v| {
                        let x = f32::from(v) / 255.0;
                        ((low + x * (high - low)).clamp(0.0, 1.0) * 255.0).round() as u8
                    })
                    .collect();
                apply_tables(r, &vec![table]).data
            }
            _ => panic!("not decoded"),
        }
    };
    i.decode = Some(pair(1, 0));
    assert_eq!(run(&i, 1.0, 0.0), vec![255, 0]);
    i.decode = Some(vec![
        Quantity::Text(b"0.2".to_vec()),
        Quantity::Text(b"0.8".to_vec()),
    ]);
    assert_eq!(run(&i, 0.2, 0.8), vec![51, 204]);
    i.decode = Some(pair(0, 1));
    assert_eq!(run(&i, 0.0, 1.0), vec![0, 255]);
}

#[test]
fn separation_samples_come_row_by_row() {
    let mut doc = Pdf::with_version("1.5");
    let f = doc.add_object(Value::Stream(stream(linear(&[1], &[0]), vec![])));
    let source = Value::Array(vec![
        name("Separation"),
        name("Spot"),
        name("DeviceGray"),
        Value::Reference(f),
    ]);
    let cs = ColorSpace::Mapped {
        components: 1,
        model: ColorModel::Gray,
        source,
    };
    // 4-bit tints 0, 15, 8.
    let s = stream(vec![], vec![0x0F, 0x80]);
    match decode(&doc, &s, &info(3, 1, 4, cs)) {
        Ok(Decoded::Mapped {
            mapping, rows, bpc, ..
        }) => {
            assert_eq!((mapping.components, bpc), (1, 4));
            assert!(matches!(rows, Rows::Packed { row_in: 2, .. }));
            assert_eq!(rows.read(0, 3, 4), vec![0, 15, 8]);
        }
        _ => panic!("not mapped"),
    }
}

#[test]
fn bitonal_is_kept_packed() {
    let r = decoded(
        vec![0b1010_0000, 0b0101_0000],
        &info(4, 2, 1, ColorSpace::Device(ColorModel::Gray)),
    );
    assert_eq!(r.format, Format::Gray1);
    assert_eq!(r.data, vec![0b1010_0000, 0b0101_0000]);
}

#[test]
fn short_data_is_skipped() {
    let doc = Pdf::with_version("1.5");
    let s = stream(vec![], vec![0; 5]);
    assert!(decode(
        &doc,
        &s,
        &info(2, 2, 8, ColorSpace::Device(ColorModel::Rgb))
    )
    .is_err());
}

#[test]
fn broken_codestreams_are_skipped() {
    let doc = Pdf::with_version("1.5");
    for filter in ["DCTDecode", "JPXDecode"] {
        let s = stream(vec![("Filter", name(filter))], b"not an image".to_vec());
        let mut i = info(2, 2, 8, ColorSpace::Device(ColorModel::Rgb));
        i.filters = vec![filter.as_bytes().to_vec()];
        assert!(decode(&doc, &s, &i).is_err(), "{filter}");
    }
}

#[test]
fn a_jpeg_is_decoded_to_its_pixels() {
    let mut c = mozjpeg::Compress::new(mozjpeg::ColorSpace::JCS_GRAYSCALE);
    c.set_size(16, 16);
    c.set_quality(90.0);
    let mut c = c.start_compress(Vec::new()).unwrap();
    c.write_scanlines(&[128u8; 256]).unwrap();
    let data = c.finish().unwrap();
    let doc = Pdf::with_version("1.5");
    let s = stream(vec![("Filter", name("DCTDecode"))], data);
    let mut i = info(16, 16, 8, ColorSpace::Device(ColorModel::Gray));
    i.filters = vec![b"DCTDecode".to_vec()];
    match decode(&doc, &s, &i) {
        Ok(Decoded::Done(r)) => {
            assert_eq!((r.width, r.height, r.format), (16, 16, Format::Gray8));
            assert!(r.data.iter().all(|v| v.abs_diff(128) <= 2));
        }
        _ => panic!("not decoded"),
    }
}

/// A JPEG 2000 codestream of one tile without coefficients: every sample has
/// half of what it can have.
fn codestream(side: u32, components: u8, depth: u8) -> Vec<u8> {
    let mut out = vec![0xFF, 0x4F, 0xFF, 0x51, 0, 38 + 3 * components, 0, 0];
    for v in [side, side, 0, 0, side, side, 0, 0] {
        out.extend(v.to_be_bytes());
    }
    out.extend([0, components]);
    for _ in 0..components {
        out.extend([depth - 1, 1, 1]);
    }
    // One layer, no decomposition, blocks of 64 by 64, reversible.
    out.extend([0xFF, 0x52, 0, 12, 0, 0, 0, 1, 0, 0, 4, 4, 0, 1]);
    // No quantization, two guard bits, the exponent of the depth.
    out.extend([0xFF, 0x5C, 0, 4, 0x40, depth << 3]);
    // A tile of empty packets, one per component.
    out.extend([0xFF, 0x90, 0, 10, 0, 0, 0, 0, 0, 14 + components, 0, 1, 0xFF, 0x93]);
    out.extend(vec![0; components as usize]);
    out.extend([0xFF, 0xD9]);
    out
}

fn boxed(kind: &[u8; 4], contents: &[u8]) -> Vec<u8> {
    let mut out = (contents.len() as u32 + 8).to_be_bytes().to_vec();
    out.extend(kind);
    out.extend(contents);
    out
}

fn jp2(header: &[Vec<u8>], stream: &[u8]) -> Vec<u8> {
    let mut out = boxed(b"jP  ", &[0x0D, 0x0A, 0x87, 0x0A]);
    out.extend(boxed(b"ftyp", b"jp2 \0\0\0\0jp2 "));
    out.extend(boxed(b"jp2h", &header.concat()));
    out.extend(boxed(b"jp2c", stream));
    out
}

fn enumerated(space: u8) -> Vec<u8> {
    boxed(b"colr", &[1, 0, 0, 0, 0, 0, space])
}

fn palette(depth: u8) -> Vec<u8> {
    let mut contents = vec![0, 1, 3, depth - 1, depth - 1, depth - 1];
    for v in [10u8, 20, 30] {
        contents.extend(vec![0; (depth as usize - 1) / 8]);
        contents.push(v);
    }
    boxed(b"pclr", &contents)
}

fn mapping() -> Vec<u8> {
    boxed(b"cmap", &[0, 0, 1, 0, 0, 0, 1, 1, 0, 0, 1, 2])
}

fn decode_jpx(data: Vec<u8>, model: ColorModel) -> Result<Raster, String> {
    let doc = Pdf::with_version("1.5");
    let s = stream(vec![("Filter", name("JPXDecode"))], data);
    let mut i = info(2, 2, 8, ColorSpace::Device(model));
    i.filters = vec![b"JPXDecode".to_vec()];
    match decode(&doc, &s, &i) {
        Ok(Decoded::Done(r)) => Ok(r),
        Ok(_) => Err("mapped".to_string()),
        Err(why) => Err(why.0),
    }
}

#[test]
fn a_jpx_is_decoded_to_its_pixels() {
    let gray = decode_jpx(codestream(2, 1, 8), ColorModel::Gray).unwrap();
    assert_eq!((gray.format, gray.data), (Format::Gray8, vec![128; 4]));
    let boxes = [enumerated(16), palette(8), mapping()];
    let color = decode_jpx(jp2(&boxes, &codestream(2, 1, 8)), ColorModel::Rgb).unwrap();
    assert_eq!(color.format, Format::Rgb8);
    assert_eq!(color.data, [10, 20, 30].repeat(4));
    let why = decode_jpx(codestream(2, 1, 8), ColorModel::Rgb).unwrap_err();
    assert_eq!(why, "JPX channels differ from the dictionary color space");
    let why = decode_jpx(codestream(3, 1, 8), ColorModel::Gray).unwrap_err();
    assert_eq!(why, "JPX size differs from the dictionary");
}

#[test]
fn a_palette_that_does_not_resolve_is_skipped() {
    let why = "JPX does not decode: its palette does not resolve";
    let unmapped = [enumerated(16), palette(8), boxed(b"cmap", &[])];
    let file = jp2(&unmapped, &codestream(2, 1, 8));
    assert!(!palette_usable(&file));
    assert_eq!(decode_jpx(file, ColorModel::Rgb), Err(why.to_string()));
    let deep = jp2(&[enumerated(16), palette(32), mapping()], &codestream(2, 1, 8));
    assert!(!palette_usable(&deep));
    assert_eq!(decode_jpx(deep, ColorModel::Rgb), Err(why.to_string()));
}

#[test]
fn an_image_that_no_memory_holds_is_skipped() {
    let doc = Pdf::with_version("1.5");
    let side = u32::MAX;
    let s = stream(vec![("Filter", name("JPXDecode"))], codestream(side, 1, 8));
    let mut i = info(side, side, 8, ColorSpace::Device(ColorModel::Gray));
    i.filters = vec![b"JPXDecode".to_vec()];
    match decode(&doc, &s, &i) {
        Err(why) => assert_eq!(why.0, "JPX does not decode: it is too large"),
        Ok(_) => panic!("decoded"),
    }
}

#[test]
fn palettes_that_resolve_are_usable() {
    let stream = codestream(2, 1, 8);
    assert!(palette_usable(&stream));
    assert!(palette_usable(b"not an image"));
    assert!(palette_usable(&jp2(&[enumerated(16)], &stream)));
    assert!(palette_usable(&jp2(&[boxed(b"cmap", &[])], &stream)));
    assert!(palette_usable(&jp2(&[palette(31)], &stream)));
    assert!(palette_usable(&jp2(&[palette(31), mapping()], &stream)));
    assert!(!palette_usable(&jp2(&[mapping(), palette(33)], &stream)));
    // Colors that are converted have one bit less.
    assert!(palette_usable(&jp2(&[enumerated(14), palette(30)], &stream)));
    assert!(!palette_usable(&jp2(&[enumerated(14), palette(31)], &stream)));
    assert!(palette_usable(&jp2(&[enumerated(14)], &codestream(2, 3, 30))));
    assert!(!palette_usable(&jp2(&[enumerated(14)], &codestream(2, 3, 31))));
    assert!(palette_usable(&jp2(&[enumerated(16)], &codestream(2, 3, 31))));
    // A length in eight bytes, and one that reaches to the end.
    let inner = boxed(b"cmap", &[]);
    let long = [&[0, 0, 0, 1][..], b"jp2h", &[0, 0, 0, 0, 0, 0, 0, 57], &palette(8), &inner];
    let last = [&[0, 0, 0, 0][..], b"jp2h", &palette(8), &inner];
    for tail in [long.concat(), last.concat()] {
        let file = [boxed(b"jP  ", &[0x0D, 0x0A, 0x87, 0x0A]), tail].concat();
        assert!(!palette_usable(&file));
    }
}

// --------------------------------------------------------------- function

#[test]
fn exponential_and_stitching_functions_keep_their_range() {
    let doc = Pdf::with_version("1.5");
    let part = || {
        Value::Dictionary(dict(vec![
            ("FunctionType", whole(2)),
            ("Domain", ints(&[0, 1])),
            ("Range", ints(&[0, 3])),
            ("N", whole(1)),
        ]))
    };
    match Function::parse(&doc, &part()) {
        Some(Function::Exponential { range, .. }) => {
            assert!(matches!(range[..], [Quantity::Whole(0), Quantity::Whole(3)]));
        }
        _ => panic!("not read"),
    }
    let stitched = Value::Dictionary(dict(vec![
        ("FunctionType", whole(3)),
        ("Domain", ints(&[0, 1])),
        ("Functions", Value::Array(vec![part()])),
        ("Bounds", ints(&[])),
        ("Encode", ints(&[0, 1])),
    ]));
    match Function::parse(&doc, &stitched) {
        Some(Function::Stitching { range, parts, .. }) => {
            assert!(range.is_empty());
            assert_eq!(parts.len(), 1);
        }
        _ => panic!("not read"),
    }
}

#[test]
fn functions_are_read_by_type() {
    let doc = Pdf::with_version("1.5");
    let f = Function::parse(&doc, &Value::Dictionary(dict(linear(&[1, 0], &[0, 1])))).unwrap();
    assert_eq!(f.outputs(), Some(2));
    let sampled = Value::Stream(stream(
        vec![
            ("FunctionType", whole(0)),
            ("Domain", ints(&[0, 1])),
            ("Range", ints(&[0, 1, 0, 1])),
            ("Size", ints(&[3])),
            ("BitsPerSample", whole(8)),
        ],
        vec![0, 255, 128, 128, 255, 0],
    ));
    match Function::parse(&doc, &sampled) {
        Some(Function::Sampled {
            samples, outputs, ..
        }) => {
            assert_eq!(samples, vec![0, 255, 128, 128, 255, 0]);
            assert_eq!(outputs, 2);
        }
        _ => panic!("not sampled"),
    }
    let parts = Value::Array(vec![
        Value::Dictionary(dict(linear(&[0], &[1]))),
        Value::Dictionary(dict(linear(&[1], &[0]))),
    ]);
    assert!(matches!(
        Function::parse(&doc, &parts),
        Some(Function::Parallel(list)) if list.len() == 2
    ));
    assert!(Function::parse(&doc, &whole(3)).is_none());
}

#[test]
fn grid_corners_count_the_first_input_fastest() {
    // A 2x3 grid: corner bits pick the low or the high neighbor.
    assert_eq!(grid_index(&vec![2, 3], &vec![0, 1], 0b00), 2);
    assert_eq!(grid_index(&vec![2, 3], &vec![0, 1], 0b01), 3);
    assert_eq!(grid_index(&vec![2, 3], &vec![0, 1], 0b10), 4);
    assert_eq!(grid_index(&vec![2, 3], &vec![0, 1], 0b11), 5);
    // Past the edge the edge is used.
    assert_eq!(grid_index(&vec![2, 3], &vec![1, 2], 0b11), 5);
}

#[test]
fn bits_are_read_from_the_left() {
    assert_eq!(read_bits(&[0b1010_0101, 0b1111_0000], 4, 8), 0b0101_1111);
    assert_eq!(read_bits(&[0xFF], 4, 8), 0xF0);
}

// ------------------------------------------------------------- calculator

fn unary(op: Operator, a: f64) -> f64 {
    match op {
        Operator::Abs => a.abs(),
        Operator::Neg => -a,
        Operator::Ceiling => a.ceil(),
        Operator::Floor => a.floor(),
        Operator::Round => (a + 0.5).floor(),
        Operator::Truncate | Operator::Cvi => a.trunc(),
        Operator::Sqrt => a.sqrt(),
        Operator::Sin => a.to_radians().sin(),
        Operator::Cos => a.to_radians().cos(),
        Operator::Ln => a.ln(),
        Operator::Log => a.log10(),
        _ => a,
    }
}

fn binary(op: Operator, a: f64, b: f64) -> f64 {
    match op {
        Operator::Plus => a + b,
        Operator::Minus => a - b,
        Operator::Times => a * b,
        Operator::Over => a / b,
        Operator::Power => a.powf(b),
        Operator::Idiv => (a.trunc() as i64).checked_div(b.trunc() as i64).unwrap_or(0) as f64,
        Operator::Modulo => (a.trunc() as i64).checked_rem(b.trunc() as i64).unwrap_or(0) as f64,
        Operator::Atan => {
            let deg = a.atan2(b).to_degrees();
            if deg < 0.0 {
                deg + 360.0
            } else {
                deg
            }
        }
        other => panic!("{other:?}"),
    }
}

fn number(cell: Cell) -> f64 {
    match cell {
        Cell::Num(bits) => f64::from_bits(bits),
        Cell::Flag(b) => f64::from(u8::from(b)),
    }
}

fn compare(op: Operator, a: Cell, b: Cell) -> bool {
    let (a, b) = (number(a), number(b));
    match op {
        Operator::Equal => a == b,
        Operator::Unequal => a != b,
        Operator::Gt => a > b,
        Operator::Ge => a >= b,
        Operator::Lt => a < b,
        _ => a <= b,
    }
}

fn evaluate(program: &Program, inputs: &[f32]) -> Result<Vec<f32>, PsError> {
    let bits: Vec<u64> = inputs.iter().map(|x| f64::from(*x).to_bits()).collect();
    let mut machine = Machine::new(program, &bits);
    let num = |x: f64| Cell::Num(x.to_bits());
    loop {
        match machine.step() {
            Action::Next => {}
            Action::Literal(word) => {
                let text = String::from_utf8(word).unwrap();
                machine.push(num(text.parse().unwrap()));
            }
            Action::Integer(i) => machine.push(num(i as f64)),
            Action::Unary(op, a) => machine.push(num(unary(op, f64::from_bits(a)))),
            Action::Binary(op, a, b) => {
                machine.push(num(binary(op, f64::from_bits(a), f64::from_bits(b))))
            }
            Action::Compare(op, a, b) => machine.push(Cell::Flag(compare(op, a, b))),
            Action::Done => break,
            Action::Failed(e) => return Err(e),
        }
    }
    let out = machine.results()?;
    Ok(out.iter().map(|b| f64::from_bits(*b) as f32).collect())
}

fn eval(src: &str, inputs: &[f32]) -> Vec<f32> {
    evaluate(&Program::parse(src.as_bytes()).unwrap(), inputs).unwrap()
}

#[test]
fn words_are_parted_by_every_white_space() {
    for space in ["\u{85}", "\u{a0}", "\u{1680}", "\u{2003}", "\u{2028}", "\u{202f}", "\u{205f}", "\u{3000}"] {
        let src = format!("{{{space}2{space}{space}mul{space}}}");
        assert_eq!(eval(&src, &[3.0]), vec![6.0]);
    }
    // A byte that ends such a character is none by itself.
    assert!(Program::parse(b"{ 2\x80mul }").is_err());
    assert!(Program::parse("{ 2\u{200b}mul }".as_bytes()).is_err());
}

#[test]
fn a_roll_is_undone_by_a_roll_back() {
    let start = [1.0, 2.0, 3.0, 4.0, 5.0];
    assert_eq!(eval("{ 4 1 roll }", &start), vec![1.0, 5.0, 2.0, 3.0, 4.0]);
    for j in [-9, -4, -1, 0, 1, 3, 6] {
        let src = format!("{{ 4 {j} roll 4 {} roll }}", -j);
        assert_eq!(eval(&src, &start), start.to_vec());
    }
}

#[test]
fn arithmetic_and_stack_operators() {
    assert_eq!(eval("{ add 2 mul }", &[1.0, 2.0]), vec![6.0]);
    assert_eq!(
        eval("{ dup mul exch dup mul add sqrt }", &[3.0, 4.0]),
        vec![5.0]
    );
    assert_eq!(eval("{ 3 1 roll }", &[1.0, 2.0, 3.0]), vec![3.0, 1.0, 2.0]);
    assert_eq!(eval("{ 3 -1 roll }", &[1.0, 2.0, 3.0]), vec![2.0, 3.0, 1.0]);
    assert_eq!(eval("{ 2 copy }", &[1.0, 2.0]), vec![1.0, 2.0, 1.0, 2.0]);
    assert_eq!(eval("{ 1 index }", &[7.0, 8.0]), vec![7.0, 8.0, 7.0]);
    assert_eq!(eval("{ 7 3 idiv 7 3 mod }", &[]), vec![2.0, 1.0]);
    assert_eq!(eval("{ 90 sin 1 1 atan }", &[]), vec![1.0, 45.0]);
}

#[test]
fn conditionals_and_booleans() {
    // A typical tint transform: 1 - x for a gray alternate.
    assert_eq!(eval("{ 1 exch sub }", &[0.25]), vec![0.75]);
    assert_eq!(
        eval("{ dup 0.5 gt { pop 1 } { pop 0 } ifelse }", &[0.7]),
        vec![1.0]
    );
    assert_eq!(
        eval("{ dup 0.5 gt { pop 1 } { pop 0 } ifelse }", &[0.2]),
        vec![0.0]
    );
    assert_eq!(eval("{ dup 0.5 gt { 2 mul } if }", &[0.6]), vec![1.2]);
    assert_eq!(eval("{ true false or { 1 } { 0 } ifelse }", &[]), vec![1.0]);
    assert_eq!(eval("{ 6 3 and 6 3 xor 1 not }", &[]), vec![2.0, 5.0, -2.0]);
}

#[test]
fn malformed_programs_are_errors() {
    assert!(Program::parse(b"{ add").is_err());
    assert!(Program::parse(b"{ frobnicate }").is_err());
    assert!(Program::parse(b"1 2 add").is_err());
    assert!(evaluate(&Program::parse(b"{ add }").unwrap(), &[1.0]).is_err());
    assert!(evaluate(&Program::parse(b"{ true }").unwrap(), &[]).is_err());
}

#[test]
fn each_error_says_what_went_wrong() {
    let fails = |src: &str, inputs: &[f32]| {
        evaluate(&Program::parse(src.as_bytes()).unwrap(), inputs).unwrap_err()
    };
    assert!(matches!(fails("{ pop }", &[]), PsError::StackUnderflow));
    assert!(matches!(fails("{ 3 copy }", &[1.0]), PsError::CopyUnderflow));
    assert!(matches!(fails("{ 3 index }", &[1.0]), PsError::IndexUnderflow));
    assert!(matches!(fails("{ 3 1 roll }", &[1.0]), PsError::RollUnderflow));
    assert!(matches!(
        fails("{ { 1 } if }", &[1.0]),
        PsError::BooleanExpected
    ));
    assert!(matches!(fails("{ true sqrt }", &[]), PsError::NumberExpected));
    assert!(matches!(fails("{ false }", &[]), PsError::BooleanLeft));
    assert!(matches!(
        Program::parse(b"{ frobnicate }"),
        Err(PsError::UnknownOperator(_))
    ));
    assert!(matches!(
        Program::parse(b"{ 1"),
        Err(PsError::UnbalancedBraces)
    ));
}
