//! Optimization settings expressed as plain data.
//!
//! Every knob is a field on [`Config`] so that presets are values rather than
//! code paths.
use vstd::prelude::*;

use crate::single;
use crate::single::Single;

verus! {

// ------------------------------------------------------------- flag sets

/// Every flag of `b` is one of `a`.
pub open spec fn includes(a: u16, b: u16) -> bool {
    a & b == b
}

/// Of two flag sets united, a single flag is in one of them; and both are in
/// the union.
pub proof fn union_holds_both(a: u16, b: u16, k: u16)
    requires
        k < 16,
    ensures
        includes(a | b, a),
        includes(a | b, b),
        includes(a | b, 1u16 << k) == (includes(a, 1u16 << k) || includes(b, 1u16 << k)),
{
    assert((a | b) & a == a) by (bit_vector);
    assert((a | b) & b == b) by (bit_vector);
    assert(((a | b) & (1u16 << k) == (1u16 << k)) == ((a & (1u16 << k) == (1u16 << k)) || (b & (1u16
        << k) == (1u16 << k)))) by (bit_vector)
        requires
            k < 16,
    ;
}

/// The names of the flags of `bits`, in the order of the table, from entry
/// `from` on, each after a bar unless it is the first one written.
pub open spec fn listed(
    names: Seq<(u16, Seq<char>)>,
    bits: u16,
    from: int,
    first: bool,
) -> Seq<char>
    decreases names.len() - from,
{
    if from < 0 || from >= names.len() {
        Seq::empty()
    } else if includes(bits, names[from].0) {
        (if first {
            Seq::empty()
        } else {
            seq!['|']
        }) + names[from].1 + listed(names, bits, from + 1, false)
    } else {
        listed(names, bits, from + 1, first)
    }
}

/// A set of flags in words: their names joined by bars, or `none`.
pub open spec fn flags_text(names: Seq<(u16, Seq<char>)>, bits: u16) -> Seq<char> {
    if bits == 0 {
        "none"@
    } else {
        listed(names, bits, 0, true)
    }
}

/// A table of flag names by its text.
pub open spec fn names_view(names: Seq<(u16, &'static str)>) -> Seq<(u16, Seq<char>)> {
    names.map_values(|e: (u16, &'static str)| (e.0, e.1@))
}

fn write_flags(names: &Vec<(u16, &'static str)>, bits: u16) -> (r: String)
    ensures
        r@ == flags_text(names_view(names@), bits),
{
    if bits == 0 {
        return "none".to_owned();
    }
    let ghost table = names_view(names@);
    let mut out = String::new();
    let mut first = true;
    let mut i: usize = 0;
    assert(out@ + listed(table, bits, 0, true) =~= listed(table, bits, 0, true));
    while i < names.len()
        invariant
            i <= names.len(),
            table == names_view(names@),
            out@ + listed(table, bits, i as int, first) == listed(table, bits, 0, true),
        decreases names.len() - i,
    {
        let (flag, name) = names[i];
        assert(table[i as int] == (flag, name@));
        let ghost before = out@;
        if bits & flag == flag {
            if !first {
                out.append("|");
                proof {
                    reveal_strlit("|");
                    assert("|"@ =~= seq!['|']);
                }
            }
            out.append(name);
            assert(out@ + listed(table, bits, i + 1, false) =~= before + listed(
                table,
                bits,
                i as int,
                first,
            ));
            first = false;
        }
        i += 1;
    }
    assert(out@ + Seq::<char>::empty() =~= out@);
    out
}

/// Where the first comma at or after `from` stands, or the length.
pub open spec fn comma_at(s: Seq<char>, from: int) -> int
    decreases s.len() - from,
{
    if from < 0 || from >= s.len() {
        s.len() as int
    } else if s[from] == ',' {
        from
    } else {
        comma_at(s, from + 1)
    }
}

/// The flag that `name` stands for in the table.
pub open spec fn flag_named(names: Seq<(u16, Seq<char>)>, name: Seq<char>, from: int) -> Option<
    u16,
>
    decreases names.len() - from,
{
    if from < 0 || from >= names.len() {
        None
    } else if names[from].1 == name {
        Some(names[from].0)
    } else {
        flag_named(names, name, from + 1)
    }
}

/// What a comma-separated list of flag names stands for from `from` on,
/// added to `bits`; or the first name that the table does not hold.
pub open spec fn parsed_list(
    names: Seq<(u16, Seq<char>)>,
    s: Seq<char>,
    from: int,
    bits: u16,
) -> Result<u16, Seq<char>>
    decreases s.len() - from,
{
    if from < 0 || from > s.len() {
        Ok(bits)
    } else {
        let end = comma_at(s, from);
        let name = s.subrange(from, end);
        match flag_named(names, name, 0) {
            None => Err(name),
            Some(flag) => if end >= s.len() || end < from {
                Ok(bits | flag)
            } else {
                parsed_list(names, s, end + 1, bits | flag)
            },
        }
    }
}

/// What a list of flag names stands for: `none`, or comma-separated names;
/// an error names the first unknown one.
pub open spec fn parsed_flags(names: Seq<(u16, Seq<char>)>, s: Seq<char>) -> Result<
    u16,
    Seq<char>,
> {
    if s == "none"@ {
        Ok(0)
    } else {
        match parsed_list(names, s, 0, 0) {
            Ok(bits) => Ok(bits),
            Err(name) => Err("unknown name `"@ + name + "`"@),
        }
    }
}

proof fn lemma_comma_at(s: Seq<char>, from: int)
    requires
        0 <= from <= s.len(),
    ensures
        from <= comma_at(s, from) <= s.len(),
    decreases s.len() - from,
{
    if from < s.len() && s[from] != ',' {
        lemma_comma_at(s, from + 1);
    }
}

fn find_flag(names: &Vec<(u16, &'static str)>, name: &String) -> (r: Option<u16>)
    ensures
        r == flag_named(names_view(names@), name@, 0),
{
    let ghost table = names_view(names@);
    let mut i: usize = 0;
    while i < names.len()
        invariant
            i <= names.len(),
            table == names_view(names@),
            flag_named(table, name@, 0) == flag_named(table, name@, i as int),
        decreases names.len() - i,
    {
        let (flag, known) = names[i];
        assert(table[i as int] == (flag, known@));
        if *name == known.to_owned() {
            return Some(flag);
        }
        i += 1;
    }
    None
}

fn read_flags(names: &Vec<(u16, &'static str)>, list: &str) -> (r: Result<u16, String>)
    ensures
        match r {
            Ok(bits) => parsed_flags(names_view(names@), list@) == Ok::<u16, Seq<char>>(bits),
            Err(text) => parsed_flags(names_view(names@), list@) == Err::<u16, Seq<char>>(text@),
        },
{
    if list.to_owned() == "none".to_owned() {
        return Ok(0);
    }
    let ghost table = names_view(names@);
    let len = list.unicode_len();
    let mut bits: u16 = 0;
    let mut from: usize = 0;
    loop
        invariant
            from <= len,
            len == list@.len(),
            table == names_view(names@),
            list@ != "none"@,
            parsed_list(table, list@, 0, 0) == parsed_list(table, list@, from as int, bits),
        decreases len - from,
    {
        let mut end: usize = from;
        while end < len && list.get_char(end) != ','
            invariant
                from <= end <= len,
                len == list@.len(),
                comma_at(list@, from as int) == comma_at(list@, end as int),
            decreases len - end,
        {
            end += 1;
        }
        proof {
            lemma_comma_at(list@, from as int);
        }
        let name = list.substring_char(from, end).to_owned();
        match find_flag(names, &name) {
            None => {
                let mut text = "unknown name `".to_owned();
                text.append(name.as_str());
                text.append("`");
                return Err(text);
            },
            Some(flag) => {
                bits = bits | flag;
            },
        }
        if end >= len {
            return Ok(bits);
        }
        from = end + 1;
    }
}

/// Set of codecs a stage may *try* for an image class. The image stage encodes
/// with every member and keeps the smallest result. `SOURCE` means "the
/// original bytes are also a candidate", which is what makes the pipeline
/// safe: with `SOURCE` present an image can never grow.
#[derive(Clone, Copy, Debug, PartialEq, Eq, Hash, Structural)]
pub struct Codecs(pub u16);

/// The codecs and their names, in the order in which they are listed.
pub open spec fn codec_names() -> Seq<(u16, Seq<char>)> {
    seq![
        (1u16, "jpeg"@),
        (2u16, "flate"@),
        (4u16, "g4"@),
        (8u16, "jbig2"@),
        (16u16, "source"@),
    ]
}

impl Codecs {
    #[verifier::allow_in_spec]
    pub fn none() -> Codecs
        returns
            Codecs(0),
    {
        Codecs(0)
    }

    /// DCT (lossy), continuous-tone images.
    #[verifier::allow_in_spec]
    pub fn jpeg() -> Codecs
        returns
            Codecs(1),
    {
        Codecs(1)
    }

    /// Flate with per-image predictor choice (lossless).
    #[verifier::allow_in_spec]
    pub fn flate() -> Codecs
        returns
            Codecs(2),
    {
        Codecs(2)
    }

    /// CCITT Group 4, bitonal images.
    #[verifier::allow_in_spec]
    pub fn g4() -> Codecs
        returns
            Codecs(4),
    {
        Codecs(4)
    }

    /// JBIG2 symbol mode with shared globals, bitonal images.
    #[verifier::allow_in_spec]
    pub fn jbig2() -> Codecs
        returns
            Codecs(8),
    {
        Codecs(8)
    }

    /// The original bytes as a candidate.
    #[verifier::allow_in_spec]
    pub fn source() -> Codecs
        returns
            Codecs(16),
    {
        Codecs(16)
    }

    pub fn contains(self, other: Codecs) -> (r: bool)
        ensures
            r == includes(self.0, other.0),
    {
        self.0 & other.0 == other.0
    }

    pub fn is_empty(self) -> (r: bool)
        ensures
            r == (self.0 == 0),
    {
        self.0 == 0
    }

    fn names() -> (r: Vec<(u16, &'static str)>)
        ensures
            names_view(r@) == codec_names(),
    {
        let mut r: Vec<(u16, &'static str)> = Vec::new();
        r.push((1, "jpeg"));
        r.push((2, "flate"));
        r.push((4, "g4"));
        r.push((8, "jbig2"));
        r.push((16, "source"));
        assert(names_view(r@) =~= codec_names());
        r
    }

    /// The set in words: the codecs' names joined by bars, or `none`.
    pub fn to_text(self) -> (r: String)
        ensures
            r@ == flags_text(codec_names(), self.0),
    {
        write_flags(&Codecs::names(), self.0)
    }

    /// A set given as `none` or as comma-separated names.
    pub fn parse(list: &str) -> (r: Result<Codecs, String>)
        ensures
            match r {
                Ok(c) => parsed_flags(codec_names(), list@) == Ok::<u16, Seq<char>>(c.0),
                Err(text) => parsed_flags(codec_names(), list@) == Err::<u16, Seq<char>>(text@),
            },
    {
        match read_flags(&Codecs::names(), list) {
            Ok(bits) => Ok(Codecs(bits)),
            Err(text) => Err(text),
        }
    }
}

impl std::ops::BitOr for Codecs {
    type Output = Codecs;

    fn bitor(self, rhs: Codecs) -> (r: Codecs) {
        Codecs(self.0 | rhs.0)
    }
}

impl vstd::std_specs::ops::BitOrSpecImpl for Codecs {
    open spec fn obeys_bitor_spec() -> bool {
        true
    }

    open spec fn bitor_req(self, rhs: Codecs) -> bool {
        true
    }

    open spec fn bitor_spec(self, rhs: Codecs) -> Codecs {
        Codecs(self.0 | rhs.0)
    }
}

/// Non-visual document parts that may be removed.
#[derive(Clone, Copy, Debug, PartialEq, Eq, Hash, Structural)]
pub struct Strip(pub u16);

/// The document parts and their names, in the order in which they are listed.
pub open spec fn strip_names() -> Seq<(u16, Seq<char>)> {
    seq![
        (1u16, "threads"@),
        (2u16, "metadata"@),
        (4u16, "piece-info"@),
        (8u16, "struct-tree"@),
        (16u16, "thumbnails"@),
        (32u16, "spider"@),
        (64u16, "alternates"@),
        (128u16, "output-intents"@),
    ]
}

impl Strip {
    #[verifier::allow_in_spec]
    pub fn none() -> Strip
        returns
            Strip(0),
    {
        Strip(0)
    }

    #[verifier::allow_in_spec]
    pub fn threads() -> Strip
        returns
            Strip(1),
    {
        Strip(1)
    }

    #[verifier::allow_in_spec]
    pub fn metadata() -> Strip
        returns
            Strip(2),
    {
        Strip(2)
    }

    #[verifier::allow_in_spec]
    pub fn piece_info() -> Strip
        returns
            Strip(4),
    {
        Strip(4)
    }

    #[verifier::allow_in_spec]
    pub fn struct_tree() -> Strip
        returns
            Strip(8),
    {
        Strip(8)
    }

    #[verifier::allow_in_spec]
    pub fn thumbnails() -> Strip
        returns
            Strip(16),
    {
        Strip(16)
    }

    #[verifier::allow_in_spec]
    pub fn spider() -> Strip
        returns
            Strip(32),
    {
        Strip(32)
    }

    #[verifier::allow_in_spec]
    pub fn alternates() -> Strip
        returns
            Strip(64),
    {
        Strip(64)
    }

    #[verifier::allow_in_spec]
    pub fn output_intents() -> Strip
        returns
            Strip(128),
    {
        Strip(128)
    }

    pub fn contains(self, other: Strip) -> (r: bool)
        ensures
            r == includes(self.0, other.0),
    {
        self.0 & other.0 == other.0
    }

    fn names() -> (r: Vec<(u16, &'static str)>)
        ensures
            names_view(r@) == strip_names(),
    {
        let mut r: Vec<(u16, &'static str)> = Vec::new();
        r.push((1, "threads"));
        r.push((2, "metadata"));
        r.push((4, "piece-info"));
        r.push((8, "struct-tree"));
        r.push((16, "thumbnails"));
        r.push((32, "spider"));
        r.push((64, "alternates"));
        r.push((128, "output-intents"));
        assert(names_view(r@) =~= strip_names());
        r
    }

    /// The set in words: the parts' names joined by bars, or `none`.
    pub fn to_text(self) -> (r: String)
        ensures
            r@ == flags_text(strip_names(), self.0),
    {
        write_flags(&Strip::names(), self.0)
    }

    /// A set given as `none` or as comma-separated names.
    pub fn parse(list: &str) -> (r: Result<Strip, String>)
        ensures
            match r {
                Ok(c) => parsed_flags(strip_names(), list@) == Ok::<u16, Seq<char>>(c.0),
                Err(text) => parsed_flags(strip_names(), list@) == Err::<u16, Seq<char>>(text@),
            },
    {
        match read_flags(&Strip::names(), list) {
            Ok(bits) => Ok(Strip(bits)),
            Err(text) => Err(text),
        }
    }
}

impl std::ops::BitOr for Strip {
    type Output = Strip;

    fn bitor(self, rhs: Strip) -> (r: Strip) {
        Strip(self.0 | rhs.0)
    }
}

impl vstd::std_specs::ops::BitOrSpecImpl for Strip {
    open spec fn obeys_bitor_spec() -> bool {
        true
    }

    open spec fn bitor_req(self, rhs: Strip) -> bool {
        true
    }

    open spec fn bitor_spec(self, rhs: Strip) -> Strip {
        Strip(self.0 | rhs.0)
    }
}

// ------------------------------------------------------------- settings

/// Target color space for images. Only what a preset uses exists here.
#[derive(Debug, Clone, Copy, PartialEq, Eq, Structural)]
pub enum ColorConversion {
    /// Leave color spaces alone.
    Keep,
    /// Convert every color image to RGB through ICC profiles.
    Rgb,
}

/// Downsampling rule for one image class.
#[derive(Debug, Clone, Copy, PartialEq, Eq, Structural)]
pub struct Dpi {
    /// Resolution to resample to.
    pub target: Single,
    /// Only images whose effective resolution exceeds this are touched.
    /// Negative disables downsampling for the class.
    pub threshold: Single,
}

impl Dpi {
    /// The rule applies: its threshold is not negative.
    pub open spec fn applies(self) -> bool {
        single::at_least(self.threshold, Single { bits: 0 })
    }

    /// The target is positive, and no threshold of a rule that applies lies
    /// below it.
    pub open spec fn sane(self) -> bool {
        single::above(self.target, Single { bits: 0 }) && (self.applies() ==> single::at_least(
            self.threshold,
            self.target,
        ))
    }

    /// Both resolutions are these whole numbers.
    pub open spec fn reads(self, target: int, threshold: int) -> bool {
        single::reads(self.target, target) && single::reads(self.threshold, threshold)
    }

    pub fn new(target: Single, threshold: Single) -> (r: Dpi)
        ensures
            r.target == target,
            r.threshold == threshold,
    {
        Dpi { target, threshold }
    }

    /// A rule that never applies.
    pub fn disabled(target: Single) -> (r: Dpi)
        ensures
            r.target == target,
            single::reads(r.threshold, -1),
            !r.applies(),
    {
        proof {
            single::lemma_resolutions();
        }
        Dpi { target, threshold: Single { bits: 0xbf80_0000 } }
    }

    pub fn enabled(&self) -> (r: bool)
        ensures
            r == self.applies(),
    {
        self.threshold.at_least(Single { bits: 0 })
    }

    pub fn is_sane(&self) -> (r: bool)
        ensures
            r == self.sane(),
    {
        self.target.above(Single { bits: 0 }) && (!self.enabled() || self.threshold.at_least(
            self.target,
        ))
    }
}

#[derive(Debug, Clone, Copy, PartialEq, Eq, Structural)]
pub struct Config {
    // Image classes and the codecs to try for each.
    pub bitonal: Codecs,
    pub continuous: Codecs,
    pub indexed: Codecs,
    pub bitonal_dpi: Dpi,
    pub gray_dpi: Dpi,
    pub color_dpi: Dpi,
    /// 1-100, JPEG quality index.
    pub jpeg_quality: u8,
    pub color_conversion: ColorConversion,
    /// Crop image pixels that lie outside their clip path before recompressing.
    pub clip_images: bool,
    /// RGB-that-is-gray to gray, two-level gray to bitonal, flat images to 1x1,
    /// opaque soft masks removed.
    pub reduce_color_complexity: bool,
    // Fonts.
    pub subset_fonts: bool,
    pub merge_fonts: bool,
    pub remove_standard_fonts: bool,
    pub convert_to_cff: bool,
    // Structure.
    pub optimize_resources: bool,
    pub remove_redundant_objects: bool,
    pub rebuild_content_streams: bool,
    pub strip: Strip,
}

#[derive(Debug, Clone, Copy, PartialEq, Eq, Structural)]
pub enum Preset {
    Less,
    Standard,
    More,
}

/// The original bytes are a candidate wherever anything is tried, so that
/// nothing can grow.
pub open spec fn never_grows(codecs: Codecs) -> bool {
    codecs.0 == 0 || includes(codecs.0, Codecs::source().0)
}

/// The resolutions of a preset: the target, and the threshold above which an
/// image is touched.
pub open spec fn preset_dpi(p: Preset) -> (int, int) {
    match p {
        Preset::Less => (200, 400),
        Preset::Standard => (150, 150),
        Preset::More => (72, 110),
    }
}

/// The document parts a preset removes.
pub open spec fn preset_strip(p: Preset) -> u16 {
    match p {
        Preset::Less => 0,
        // threads, metadata, piece-info, thumbnails, spider, alternates, output-intents
        Preset::Standard => 1u16 | 2u16 | 4u16 | 16u16 | 32u16 | 64u16 | 128u16,
        // threads, metadata, piece-info, struct-tree, thumbnails, spider, alternates
        Preset::More => 1u16 | 2u16 | 4u16 | 8u16 | 16u16 | 32u16 | 64u16,
    }
}

impl Config {
    /// The settings are usable, and none of them lets an image grow.
    pub open spec fn safe(self) -> bool {
        &&& self.bitonal_dpi.sane() && self.gray_dpi.sane() && self.color_dpi.sane()
        &&& 1 <= self.jpeg_quality <= 100
        &&& never_grows(self.bitonal) && never_grows(self.continuous) && never_grows(self.indexed)
    }

    /// Engine defaults before any profile is applied: nothing is processed.
    fn baseline() -> (r: Config)
        ensures
            r.bitonal == Codecs::none(),
            r.continuous == Codecs::none(),
            r.indexed == Codecs::none(),
            !r.bitonal_dpi.applies() && !r.gray_dpi.applies() && !r.color_dpi.applies(),
            single::reads(r.bitonal_dpi.target, 200),
            single::reads(r.gray_dpi.target, 150),
            single::reads(r.color_dpi.target, 150),
            r.jpeg_quality == 75,
            r.color_conversion == ColorConversion::Keep,
            !r.clip_images && !r.reduce_color_complexity,
            !r.subset_fonts && !r.merge_fonts && !r.remove_standard_fonts && !r.convert_to_cff,
            !r.optimize_resources && !r.remove_redundant_objects && !r.rebuild_content_streams,
            r.strip == Strip::none(),
    {
        proof {
            single::lemma_resolutions();
        }
        Config {
            bitonal: Codecs::none(),
            continuous: Codecs::none(),
            indexed: Codecs::none(),
            bitonal_dpi: Dpi::disabled(Single { bits: 0x4348_0000 }),
            gray_dpi: Dpi::disabled(Single { bits: 0x4316_0000 }),
            color_dpi: Dpi::disabled(Single { bits: 0x4316_0000 }),
            jpeg_quality: 75,
            color_conversion: ColorConversion::Keep,
            clip_images: false,
            reduce_color_complexity: false,
            subset_fonts: false,
            merge_fonts: false,
            remove_standard_fonts: false,
            convert_to_cff: false,
            optimize_resources: false,
            remove_redundant_objects: false,
            rebuild_content_streams: false,
            strip: Strip::none(),
        }
    }

    /// Shared base for the `Standard` and `More` presets: lossless passes
    /// on, image recompression on, no downsampling until a preset sets DPI.
    fn heavy_base() -> (r: Config)
        ensures
            r.bitonal == Codecs(4u16 | 16u16),
            r.continuous == Codecs(1u16 | 2u16 | 16u16),
            r.indexed == Codecs(2u16 | 16u16),
            r.jpeg_quality == 80,
            r.color_conversion == ColorConversion::Keep,
            r.clip_images && r.reduce_color_complexity,
            r.subset_fonts && r.merge_fonts && r.convert_to_cff,
            !r.remove_standard_fonts,
            r.optimize_resources && r.remove_redundant_objects && !r.rebuild_content_streams,
            r.strip == Strip(1u16 | 4u16 | 8u16 | 16u16 | 32u16),
    {
        Config {
            bitonal: Codecs::g4() | Codecs::source(),
            continuous: Codecs::jpeg() | Codecs::flate() | Codecs::source(),
            indexed: Codecs::flate() | Codecs::source(),
            jpeg_quality: 80,
            clip_images: true,
            reduce_color_complexity: true,
            subset_fonts: true,
            merge_fonts: true,
            convert_to_cff: true,
            optimize_resources: true,
            remove_redundant_objects: true,
            strip: Strip::threads() | Strip::piece_info() | Strip::struct_tree()
                | Strip::thumbnails() | Strip::spider(),
            ..Config::baseline()
        }
    }

    /// Whether the settings are those of a preset. Every one of them is usable
    /// and keeps an image from growing.
    pub open spec fn is_preset(self, p: Preset) -> bool {
        &&& self.safe()
        &&& self.bitonal_dpi.reads(preset_dpi(p).0, preset_dpi(p).1)
        &&& self.gray_dpi.reads(preset_dpi(p).0, preset_dpi(p).1)
        &&& self.color_dpi.reads(preset_dpi(p).0, preset_dpi(p).1)
        &&& self.bitonal == Codecs(
                if p is Standard {
                    4u16 | 16u16
                } else {
                    8u16 | 16u16
                },
            )
        &&& self.continuous == Codecs(
                if p is Standard {
                    1u16 | 2u16 | 16u16
                } else {
                    1u16 | 16u16
                },
            )
        &&& self.indexed == Codecs(
                if p is Less {
                    0
                } else {
                    2u16 | 16u16
                },
            )
        &&& self.jpeg_quality == if p is Less {
                75int
            } else {
                60
            }
        &&& self.color_conversion == if p is More {
                ColorConversion::Rgb
            } else {
                ColorConversion::Keep
            }
        &&& self.clip_images == !(p is Less)
        &&& self.reduce_color_complexity == !(p is Less)
        &&& self.subset_fonts
        &&& self.merge_fonts == !(p is Less)
        &&& self.remove_standard_fonts == !(p is Standard)
        &&& self.convert_to_cff == !(p is Less)
        &&& self.optimize_resources
        &&& self.remove_redundant_objects
        &&& !self.rebuild_content_streams
        &&& self.strip == Strip(preset_strip(p))
    }

    /// The settings of a preset. Every one of them is usable and keeps an
    /// image from growing.
    pub fn preset(p: Preset) -> (r: Config)
        ensures
            r.is_preset(p),
    {
        proof {
            single::lemma_resolutions();
            assert((8u16 | 16u16) & 16u16 == 16u16 && (4u16 | 16u16) & 16u16 == 16u16 && (1u16
                | 16u16) & 16u16 == 16u16 && (1u16 | 2u16 | 16u16) & 16u16 == 16u16 && (2u16
                | 16u16) & 16u16 == 16u16) by (bit_vector);
        }
        match p {
            Preset::Less => {
                // 200 and 400 dpi.
                let dpi = Dpi::new(Single { bits: 0x4348_0000 }, Single { bits: 0x43c8_0000 });
                Config {
                    bitonal: Codecs::jbig2() | Codecs::source(),
                    continuous: Codecs::jpeg() | Codecs::source(),
                    indexed: Codecs::none(),
                    bitonal_dpi: dpi,
                    gray_dpi: dpi,
                    color_dpi: dpi,
                    jpeg_quality: 75,
                    optimize_resources: true,
                    remove_redundant_objects: true,
                    remove_standard_fonts: true,
                    subset_fonts: true,
                    ..Config::baseline()
                }
            },
            Preset::Standard => {
                // 150 and 150 dpi.
                let dpi = Dpi::new(Single { bits: 0x4316_0000 }, Single { bits: 0x4316_0000 });
                Config {
                    bitonal_dpi: dpi,
                    gray_dpi: dpi,
                    color_dpi: dpi,
                    jpeg_quality: 60,
                    strip: Strip::threads() | Strip::metadata() | Strip::piece_info()
                        | Strip::thumbnails() | Strip::spider() | Strip::alternates()
                        | Strip::output_intents(),
                    ..Config::heavy_base()
                }
            },
            Preset::More => {
                // 72 and 110 dpi.
                let dpi = Dpi::new(Single { bits: 0x4290_0000 }, Single { bits: 0x42dc_0000 });
                Config {
                    bitonal: Codecs::jbig2() | Codecs::source(),
                    continuous: Codecs::jpeg() | Codecs::source(),
                    bitonal_dpi: dpi,
                    gray_dpi: dpi,
                    color_dpi: dpi,
                    jpeg_quality: 60,
                    color_conversion: ColorConversion::Rgb,
                    remove_standard_fonts: true,
                    strip: Strip::threads() | Strip::metadata() | Strip::piece_info()
                        | Strip::struct_tree() | Strip::thumbnails() | Strip::spider()
                        | Strip::alternates(),
                    ..Config::heavy_base()
                }
            },
        }
    }
}

// ------------------------------------------------------------- overrides

/// Settings given one by one, on top of a preset.
#[derive(Debug, Clone, Copy)]
pub struct Overrides {
    /// Target resolution, for all image classes.
    pub dpi: Option<Single>,
    /// Threshold resolution, for all image classes.
    pub threshold_dpi: Option<Single>,
    pub bitonal: Option<Codecs>,
    pub continuous: Option<Codecs>,
    pub indexed: Option<Codecs>,
    pub jpeg_quality: Option<u8>,
    pub color_conversion: Option<ColorConversion>,
    pub clip_images: Option<bool>,
    pub reduce_color_complexity: Option<bool>,
    pub subset_fonts: Option<bool>,
    pub merge_fonts: Option<bool>,
    pub remove_standard_fonts: Option<bool>,
    pub convert_to_cff: Option<bool>,
    pub optimize_resources: Option<bool>,
    pub remove_redundant_objects: Option<bool>,
    pub rebuild_content_streams: Option<bool>,
    pub strip: Option<Strip>,
}

/// The given value, or else the one that stands already.
pub open spec fn chosen<T>(given: Option<T>, standing: T) -> T {
    match given {
        Some(v) => v,
        None => standing,
    }
}

/// The given value, or else the one that stands already.
fn pick<T>(given: Option<T>, standing: T) -> (r: T)
    ensures
        r == chosen(given, standing),
{
    match given {
        Some(v) => v,
        None => standing,
    }
}

impl Overrides {
    /// What the overrides make of a rule.
    pub open spec fn rule(self, d: Dpi) -> Dpi {
        Dpi {
            target: chosen(self.dpi, d.target),
            threshold: chosen(self.threshold_dpi, d.threshold),
        }
    }

    /// What the overrides make of a configuration.
    pub open spec fn on(self, base: Config) -> Config {
        Config {
            bitonal_dpi: self.rule(base.bitonal_dpi),
            gray_dpi: self.rule(base.gray_dpi),
            color_dpi: self.rule(base.color_dpi),
            bitonal: chosen(self.bitonal, base.bitonal),
            continuous: chosen(self.continuous, base.continuous),
            indexed: chosen(self.indexed, base.indexed),
            jpeg_quality: chosen(self.jpeg_quality, base.jpeg_quality),
            color_conversion: chosen(self.color_conversion, base.color_conversion),
            clip_images: chosen(self.clip_images, base.clip_images),
            reduce_color_complexity: chosen(self.reduce_color_complexity, base.reduce_color_complexity),
            subset_fonts: chosen(self.subset_fonts, base.subset_fonts),
            merge_fonts: chosen(self.merge_fonts, base.merge_fonts),
            remove_standard_fonts: chosen(self.remove_standard_fonts, base.remove_standard_fonts),
            convert_to_cff: chosen(self.convert_to_cff, base.convert_to_cff),
            optimize_resources: chosen(self.optimize_resources, base.optimize_resources),
            remove_redundant_objects: chosen(self.remove_redundant_objects, base.remove_redundant_objects),
            rebuild_content_streams: chosen(self.rebuild_content_streams, base.rebuild_content_streams),
            strip: chosen(self.strip, base.strip),
        }
    }

    fn adjusted(&self, d: Dpi) -> (r: Dpi)
        ensures
            r == self.rule(d),
    {
        Dpi {
            target: pick(self.dpi, d.target),
            threshold: pick(self.threshold_dpi, d.threshold),
        }
    }

    /// The configuration with every given setting in place of its own.
    pub fn apply(&self, base: Config) -> (r: Config)
        ensures
            r == self.on(base),
    {
        Config {
            bitonal_dpi: self.adjusted(base.bitonal_dpi),
            gray_dpi: self.adjusted(base.gray_dpi),
            color_dpi: self.adjusted(base.color_dpi),
            bitonal: pick(self.bitonal, base.bitonal),
            continuous: pick(self.continuous, base.continuous),
            indexed: pick(self.indexed, base.indexed),
            jpeg_quality: pick(self.jpeg_quality, base.jpeg_quality),
            color_conversion: pick(self.color_conversion, base.color_conversion),
            clip_images: pick(self.clip_images, base.clip_images),
            reduce_color_complexity: pick(self.reduce_color_complexity, base.reduce_color_complexity),
            subset_fonts: pick(self.subset_fonts, base.subset_fonts),
            merge_fonts: pick(self.merge_fonts, base.merge_fonts),
            remove_standard_fonts: pick(self.remove_standard_fonts, base.remove_standard_fonts),
            convert_to_cff: pick(self.convert_to_cff, base.convert_to_cff),
            optimize_resources: pick(self.optimize_resources, base.optimize_resources),
            remove_redundant_objects: pick(self.remove_redundant_objects, base.remove_redundant_objects),
            rebuild_content_streams: pick(self.rebuild_content_streams, base.rebuild_content_streams),
            strip: pick(self.strip, base.strip),
        }
    }
}

// ------------------------------------------------------------- laws

/// What presets remove: the least nothing; the standard one everything but the
/// structure tree; and the most everything but the output intents.
pub proof fn presets_remove_what_they_say(flag: Strip)
    requires
        flag == Strip::threads() || flag == Strip::metadata() || flag == Strip::piece_info() || flag
            == Strip::struct_tree() || flag == Strip::thumbnails() || flag == Strip::spider()
            || flag == Strip::alternates() || flag == Strip::output_intents(),
    ensures
        !includes(preset_strip(Preset::Less), flag.0),
        includes(preset_strip(Preset::Standard), flag.0) <==> flag != Strip::struct_tree(),
        includes(preset_strip(Preset::More), flag.0) <==> flag != Strip::output_intents(),
{
    let b = flag.0;
    assert(b == 1 || b == 2 || b == 4 || b == 8 || b == 16 || b == 32 || b == 64 || b == 128);
    assert((0u16 & b == b) == (b == 0)) by (bit_vector);
    assert(b == 1 || b == 2 || b == 4 || b == 8 || b == 16 || b == 32 || b == 64 || b == 128 ==> ((
    1u16 | 2u16 | 4u16 | 16u16 | 32u16 | 64u16 | 128u16) & b == b) == (b != 8)) by (bit_vector);
    assert(b == 1 || b == 2 || b == 4 || b == 8 || b == 16 || b == 32 || b == 64 || b == 128 ==> ((
    1u16 | 2u16 | 4u16 | 8u16 | 16u16 | 32u16 | 64u16) & b == b) == (b != 128)) by (bit_vector);
}

} // verus!
