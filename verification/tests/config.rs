use compress_pdf::config::{Codecs, ColorConversion, Config, Dpi, Preset, Strip};
use compress_pdf::single::Single;

fn number(v: f32) -> Single {
    Single { bits: v.to_bits() }
}

#[test]
fn presets_are_sane() {
    for p in [Preset::Less, Preset::Standard, Preset::More] {
        let c = Config::preset(p);
        assert!(c.bitonal_dpi.is_sane(), "{p:?} bitonal dpi");
        assert!(c.gray_dpi.is_sane(), "{p:?} gray dpi");
        assert!(c.color_dpi.is_sane(), "{p:?} color dpi");
        assert!((1..=100).contains(&c.jpeg_quality));
        // Every preset must keep the never-grow guarantee.
        assert!(c.bitonal.is_empty() || c.bitonal.contains(Codecs::source()));
        assert!(c.continuous.is_empty() || c.continuous.contains(Codecs::source()));
        assert!(c.indexed.is_empty() || c.indexed.contains(Codecs::source()));
    }
}

#[test]
fn standard_does_not_convert_color() {
    assert_eq!(
        Config::preset(Preset::Standard).color_conversion,
        ColorConversion::Keep
    );
}

#[test]
fn flag_debug_is_readable() {
    assert_eq!((Codecs::jpeg() | Codecs::source()).to_text(), "jpeg|source");
    assert_eq!(Strip::none().to_text(), "none");
}

#[test]
fn preset_values_are_the_documented_ones() {
    let less = Config::preset(Preset::Less);
    assert_eq!(less.gray_dpi, Dpi::new(number(200.0), number(400.0)));
    assert_eq!(less.strip, Strip::none());
    let standard = Config::preset(Preset::Standard);
    assert_eq!(standard.color_dpi, Dpi::new(number(150.0), number(150.0)));
    assert_eq!(standard.jpeg_quality, 60);
    assert_eq!(
        standard.strip.to_text(),
        "threads|metadata|piece-info|thumbnails|spider|alternates|output-intents"
    );
    let more = Config::preset(Preset::More);
    assert_eq!(more.bitonal_dpi, Dpi::new(number(72.0), number(110.0)));
    assert_eq!(more.color_conversion, ColorConversion::Rgb);
    assert_eq!(more.bitonal.to_text(), "jbig2|source");
}

#[test]
fn thresholds_switch_downsampling_off_and_on() {
    assert!(!Dpi::disabled(number(150.0)).enabled());
    assert!(Dpi::disabled(number(150.0)).is_sane());
    assert!(!Dpi::disabled(number(0.0)).is_sane());
    assert!(Dpi::new(number(150.0), number(-0.0)).enabled());
    assert!(!Dpi::new(number(150.0), number(149.5)).is_sane());
    assert!(!Dpi::new(number(f32::NAN), number(-1.0)).is_sane());
    assert!(!Dpi::new(number(150.0), number(f32::NAN)).enabled());
}
