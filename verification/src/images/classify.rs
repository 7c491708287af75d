//! Read an image XObject's dictionary into a plain description and decide
//! which class (bitonal, indexed, continuous) it belongs to. The second
//! half of the file handles color spaces whose samples are not device
//! values (Separation, DeviceN through their tint transform, and Lab): a
//! [`Mapping`] says how a tuple of decoded component values turns into device
//! samples of its [`ColorModel`], which is what the rest of the stage
//! works in.
use vstd::prelude::*;
use vstd::string::StringExecFns;

use crate::backend;
use crate::bytes;
use crate::document;
use crate::document::Pdf;
use crate::font::std14;
use crate::images::encode;
use crate::images::function;
use crate::images::function::{Function, Quantity};
use crate::object;
use crate::object::{Dict, ObjectId, Value, ValueView};

verus! {

/// Device color model the samples are in, after resolving ICCBased by its
/// component count.
#[derive(Debug, Clone, Copy, PartialEq, Eq, Structural)]
pub enum ColorModel {
    Gray,
    Rgb,
    Cmyk,
}

/// How many components a model has.
pub open spec fn components_of(model: ColorModel) -> int {
    match model {
        ColorModel::Gray => 1,
        ColorModel::Rgb => 3,
        ColorModel::Cmyk => 4,
    }
}

/// How many components a model has.
pub fn components(model: ColorModel) -> (r: usize)
    ensures
        r == components_of(model),
{
    match model {
        ColorModel::Gray => 1,
        ColorModel::Rgb => 3,
        ColorModel::Cmyk => 4,
    }
}

/// The color space of an image.
#[derive(Debug)]
pub enum ColorSpace {
    Device(ColorModel),
    /// Palette lookup into `base`; `hival` is the highest valid index.
    /// `palette` is set when the base was a mapped space: the palette
    /// converted to `base`, which the dictionary must then be given.
    Indexed { base: ColorModel, hival: u8, palette: Option<Vec<u8>> },
    /// Palette lookup into a mapped space: the `entries` of the palette as
    /// they stand, which a [`Mapping`] built from `source` turns into `base`.
    Unmapped { base: ColorModel, hival: u8, source: Value, entries: Vec<u8> },
    /// Separation, DeviceN or Lab: `components` samples per pixel that a
    /// [`Mapping`] built from `source` turns into `model`.
    Mapped { components: usize, model: ColorModel, source: Value },
    /// Anything the stage does not handle (Pattern, unresolvable...).
    Other(String),
}

/// What a color space is.
pub enum SpaceView {
    Device(ColorModel),
    Indexed { base: ColorModel, hival: u8, palette: Option<Seq<u8>> },
    Unmapped { base: ColorModel, hival: u8, source: ValueView, entries: Seq<u8> },
    Mapped { components: usize, model: ColorModel, source: ValueView },
    Other(Seq<char>),
}

impl View for ColorSpace {
    type V = SpaceView;

    open spec fn view(&self) -> SpaceView {
        match *self {
            ColorSpace::Device(m) => SpaceView::Device(m),
            ColorSpace::Indexed { base, hival, palette } => SpaceView::Indexed {
                base,
                hival,
                palette: backend::bytes_view(palette),
            },
            ColorSpace::Unmapped { base, hival, source, entries } => SpaceView::Unmapped {
                base,
                hival,
                source: source@,
                entries: entries@,
            },
            ColorSpace::Mapped { components, model, source } => SpaceView::Mapped {
                components,
                model,
                source: source@,
            },
            ColorSpace::Other(s) => SpaceView::Other(s@),
        }
    }
}

/// The class of an image.
#[derive(Debug, Clone, Copy, PartialEq, Eq, Structural)]
pub enum Class {
    Bitonal,
    Indexed,
    Gray,
    Color,
}

/// What an image's dictionary says.
#[derive(Debug)]
pub struct ImageInfo {
    pub width: u32,
    pub height: u32,
    pub bpc: u8,
    pub color: ColorSpace,
    pub filters: Vec<Vec<u8>>,
    pub decode: Option<Vec<Quantity>>,
    pub is_stencil: bool,
    pub has_color_key_mask: bool,
    /// The ICCBased profile stream, when the color space has one.
    pub icc_profile: Option<ObjectId>,
}

/// What is known of an image.
pub struct InfoView {
    pub width: u32,
    pub height: u32,
    pub bpc: u8,
    pub color: SpaceView,
    pub filters: Seq<Seq<u8>>,
    pub decode: Option<Seq<function::QuantityView>>,
    pub is_stencil: bool,
    pub has_color_key_mask: bool,
    pub icc_profile: Option<ObjectId>,
}

pub open spec fn names_view(names: Seq<Vec<u8>>) -> Seq<Seq<u8>> {
    names.map_values(|n: Vec<u8>| n@)
}

impl View for ImageInfo {
    type V = InfoView;

    open spec fn view(&self) -> InfoView {
        InfoView {
            width: self.width,
            height: self.height,
            bpc: self.bpc,
            color: self.color@,
            filters: names_view(self.filters@),
            decode: function::some_quantities(self.decode),
            is_stencil: self.is_stencil,
            has_color_key_mask: self.has_color_key_mask,
            icc_profile: self.icc_profile,
        }
    }
}

/// The class of an image: by its depth and color space.
pub open spec fn class_of(i: InfoView) -> Class {
    if i.is_stencil || (i.bpc == 1 && i.color == SpaceView::Device(ColorModel::Gray)) {
        Class::Bitonal
    } else {
        match i.color {
            SpaceView::Indexed { .. } => Class::Indexed,
            SpaceView::Unmapped { .. } => Class::Indexed,
            SpaceView::Device(ColorModel::Gray) => Class::Gray,
            SpaceView::Mapped { model: ColorModel::Gray, .. } => Class::Gray,
            _ => Class::Color,
        }
    }
}

/// A filter that is an image codec.
pub open spec fn is_codec(f: Seq<u8>) -> bool {
    f == bytes::text("DCTDecode"@) || f == bytes::text("JPXDecode"@) || f == bytes::text(
        "CCITTFaxDecode"@,
    ) || f == bytes::text("JBIG2Decode"@)
}

/// The first filter from `i` on that is an image codec.
pub open spec fn codec_from(filters: Seq<Seq<u8>>, i: int) -> Option<Seq<u8>>
    decreases filters.len() - i,
{
    if i < 0 || i >= filters.len() {
        None
    } else if is_codec(filters[i]) {
        Some(filters[i])
    } else {
        codec_from(filters, i + 1)
    }
}

impl ImageInfo {
    pub fn class(&self) -> (r: Class)
        ensures
            r == class_of(self@),
    {
        let gray = match &self.color {
            ColorSpace::Device(ColorModel::Gray) => true,
            _ => false,
        };
        if self.is_stencil || (self.bpc == 1 && gray) {
            Class::Bitonal
        } else {
            match &self.color {
                ColorSpace::Indexed { .. } => Class::Indexed,
                ColorSpace::Unmapped { .. } => Class::Indexed,
                ColorSpace::Device(ColorModel::Gray) => Class::Gray,
                ColorSpace::Mapped { model: ColorModel::Gray, .. } => Class::Gray,
                _ => Class::Color,
            }
        }
    }

    /// Filter that produced the stored bytes, if it is an image codec.
    pub fn image_codec(&self) -> (r: Option<&Vec<u8>>)
        ensures
            match r {
                Some(f) => codec_from(self@.filters, 0) == Some(f@),
                None => codec_from(self@.filters, 0) is None,
            },
    {
        let ghost view = self@.filters;
        let mut i: usize = 0;
        while i < self.filters.len()
            invariant
                i <= self.filters@.len(),
                view == names_view(self.filters@),
                codec_from(view, 0) == codec_from(view, i as int),
            decreases self.filters@.len() - i,
        {
            let f = &self.filters[i];
            assert(view[i as int] == f@);
            if bytes::is_text(f, "DCTDecode") || bytes::is_text(f, "JPXDecode") || bytes::is_text(
                f,
                "CCITTFaxDecode",
            ) || bytes::is_text(f, "JBIG2Decode") {
                return Some(f);
            }
            i += 1;
        }
        None
    }
}

// ------------------------------------------------------------- text

/// Bytes as text, with what is not text replaced.
pub uninterp spec fn lossy_text(b: Seq<u8>) -> Seq<char>;

/// `String::from_utf8_lossy`.
#[verifier::external_body]
pub(crate) fn lossy(b: &[u8]) -> (r: String)
    ensures
        r@ == lossy_text(b@),
{
    String::from_utf8_lossy(b).into_owned()
}

// ------------------------------------------------------------- models

/// The device model that a name stands for.
pub open spec fn model_named(n: Seq<u8>) -> Option<ColorModel> {
    if n == bytes::text("DeviceGray"@) || n == bytes::text("G"@) || n == bytes::text("CalGray"@) {
        Some(ColorModel::Gray)
    } else if n == bytes::text("DeviceRGB"@) || n == bytes::text("RGB"@) || n == bytes::text(
        "CalRGB"@,
    ) {
        Some(ColorModel::Rgb)
    } else if n == bytes::text("DeviceCMYK"@) || n == bytes::text("CMYK"@) {
        Some(ColorModel::Cmyk)
    } else {
        None
    }
}

fn device_model(n: &[u8]) -> (r: Option<ColorModel>)
    ensures
        r == model_named(n@),
{
    if bytes::is_text(n, "DeviceGray") || bytes::is_text(n, "G") || bytes::is_text(n, "CalGray") {
        Some(ColorModel::Gray)
    } else if bytes::is_text(n, "DeviceRGB") || bytes::is_text(n, "RGB") || bytes::is_text(
        n,
        "CalRGB",
    ) {
        Some(ColorModel::Rgb)
    } else if bytes::is_text(n, "DeviceCMYK") || bytes::is_text(n, "CMYK") {
        Some(ColorModel::Cmyk)
    } else {
        None
    }
}

/// The model of an ICC profile by its component count.
pub open spec fn icc_model_of(t: document::TableView, stream: Option<ValueView>) -> Option<
    ColorModel,
> {
    match stream {
        None => None,
        Some(v) => match document::resolved(t, v) {
            Some(ValueView::Stream(d, _)) => match object::lookup(d, bytes::text("N"@)) {
                Some(ValueView::Integer(n)) => if n == 1 {
                    Some(ColorModel::Gray)
                } else if n == 3 {
                    Some(ColorModel::Rgb)
                } else if n == 4 {
                    Some(ColorModel::Cmyk)
                } else {
                    None
                },
                _ => None,
            },
            _ => None,
        },
    }
}

fn icc_model(doc: &Pdf, stream: Option<&Value>) -> (r: Option<ColorModel>)
    requires
        doc.wf(),
    ensures
        r == icc_model_of(
            doc@.objects,
            match stream {
                Some(v) => Some(v@),
                None => None,
            },
        ),
{
    let v = stream?;
    let target = doc.dereference(v)?;
    let s = target.as_stream()?;
    let n = match s.dict.get("N".as_bytes()) {
        Some(n) => match n.as_i64() {
            Some(n) => n,
            None => {
                return None;
            },
        },
        None => {
            return None;
        },
    };
    if n == 1 {
        Some(ColorModel::Gray)
    } else if n == 3 {
        Some(ColorModel::Rgb)
    } else if n == 4 {
        Some(ColorModel::Cmyk)
    } else {
        None
    }
}

/// The item at a place, if there is one.
pub open spec fn item(items: Seq<ValueView>, i: int) -> Option<ValueView> {
    if 0 <= i < items.len() {
        Some(items[i])
    } else {
        None
    }
}

/// The name that an array starts with; nothing where it starts with none.
pub open spec fn family_of(items: Seq<ValueView>) -> Seq<u8> {
    match item(items, 0) {
        Some(ValueView::Name(n)) => n,
        _ => Seq::empty(),
    }
}

fn get_item(items: &Vec<Value>, i: usize) -> (r: Option<&Value>)
    ensures
        match r {
            Some(v) => item(object::objects_view(items@), i as int) == Some(v@),
            None => item(object::objects_view(items@), i as int) is None,
        },
{
    if i < items.len() {
        assert(object::objects_view(items@)[i as int] == items@[i as int]@);
        Some(&items[i])
    } else {
        None
    }
}

fn family(items: &Vec<Value>) -> (r: Vec<u8>)
    ensures
        r@ == family_of(object::objects_view(items@)),
{
    match get_item(items, 0) {
        Some(v) => match v.as_name() {
            Some(n) => bytes::copy(n),
            None => empty(),
        },
        None => empty(),
    }
}

fn empty() -> (r: Vec<u8>)
    ensures
        r@ == Seq::<u8>::empty(),
{
    let r: Vec<u8> = Vec::new();
    assert(r@ =~= Seq::empty());
    r
}

// ------------------------------------------------------------- mapped spaces

/// How a tuple of component values turns into device samples.
pub struct Mapping {
    pub components: usize,
    pub model: ColorModel,
    pub kind: MappingKind,
}

/// The three ways of a [`Mapping`].
pub enum MappingKind {
    Device,
    /// The white point, and the ranges of a and b.
    Lab { white: Vec<Quantity>, range: Vec<Quantity> },
    Tint { function: Function, alternate: Box<Mapping> },
}

/// What a mapping is.
pub struct MappingView {
    pub components: usize,
    pub model: ColorModel,
    pub kind: KindView,
}

pub enum KindView {
    Device,
    Lab { white: Seq<function::QuantityView>, range: Seq<function::QuantityView> },
    Tint { function: function::FunctionView, alternate: Box<MappingView> },
}

pub open spec fn mapping_view(m: Mapping) -> MappingView
    decreases m,
{
    MappingView {
        components: m.components,
        model: m.model,
        kind: match m.kind {
            MappingKind::Device => KindView::Device,
            MappingKind::Lab { white, range } => KindView::Lab {
                white: function::quantities_view(white@),
                range: function::quantities_view(range@),
            },
            MappingKind::Tint { function, alternate } => KindView::Tint {
                function: function@,
                alternate: Box::new(mapping_view(*alternate)),
            },
        },
    }
}

impl View for Mapping {
    type V = MappingView;

    open spec fn view(&self) -> MappingView {
        mapping_view(*self)
    }
}

/// How deep alternates may nest.
pub const MAX_ALTERNATES: usize = 5;

/// A space whose samples are device values.
pub open spec fn device_mapping(model: ColorModel) -> MappingView {
    MappingView { components: components_of(model) as usize, model, kind: KindView::Device }
}

/// The default white point.
pub open spec fn default_white() -> Seq<function::QuantityView> {
    seq![
        function::QuantityView::Text(bytes::text("0.9505"@)),
        function::QuantityView::Whole(1),
        function::QuantityView::Text(bytes::text("1.089"@)),
    ]
}

/// The default ranges of a and b.
pub open spec fn default_range() -> Seq<function::QuantityView> {
    seq![
        function::QuantityView::Whole((-100) as i64),
        function::QuantityView::Whole(100),
        function::QuantityView::Whole((-100) as i64),
        function::QuantityView::Whole(100),
    ]
}

/// The numbers of an array that stands in a dictionary.
pub open spec fn direct_floats(d: object::DictView, key: Seq<char>) -> Option<
    Seq<function::QuantityView>,
> {
    match object::lookup(d, bytes::text(key)) {
        Some(v) => function::array_quantities(v),
        None => None,
    }
}

/// A Lab space.
pub open spec fn lab_mapping(t: document::TableView, v: ValueView) -> Option<MappingView> {
    match std14::target(t, v) {
        ValueView::Dictionary(d) => {
            let white = match direct_floats(d, "WhitePoint"@) {
                Some(w) => w,
                None => default_white(),
            };
            let range = match direct_floats(d, "Range"@) {
                Some(r) => r,
                None => default_range(),
            };
            if white.len() != 3 || range.len() != 4 {
                None
            } else {
                Some(
                    MappingView {
                        components: 3,
                        model: ColorModel::Rgb,
                        kind: KindView::Lab { white, range },
                    },
                )
            }
        },
        _ => None,
    }
}

/// A space of `n` components through a tint transform into an alternate.
pub open spec fn tint_mapping(
    alternate: Option<MappingView>,
    f: Option<function::FunctionView>,
    n: int,
) -> Option<MappingView> {
    match (alternate, f) {
        (Some(a), Some(f)) => {
            let outputs = function::outputs_of(f);
            if outputs is Some && outputs->0 < a.components {
                None
            } else {
                Some(
                    MappingView {
                        components: n as usize,
                        model: a.model,
                        kind: KindView::Tint { function: f, alternate: Box::new(a) },
                    },
                )
            }
        },
        _ => None,
    }
}

/// The tint transform and the alternate of a space's array.
pub open spec fn tint_of(
    t: document::TableView,
    items: Seq<ValueView>,
    n: int,
    fuel: nat,
) -> Option<MappingView>
    decreases fuel, 0int,
{
    if fuel == 0 || item(items, 2) is None || item(items, 3) is None {
        None
    } else {
        tint_mapping(
            mapping_of(t, items[2], (fuel - 1) as nat),
            function::function_of(t, items[3], function::MAX_DEPTH as nat),
            n,
        )
    }
}

/// How the samples of a color space turn into device samples.
pub open spec fn mapping_of(t: document::TableView, v: ValueView, fuel: nat) -> Option<MappingView>
    decreases fuel, 1int,
{
    if fuel == 0 {
        None
    } else {
        match std14::target(t, v) {
            ValueView::Name(n) => match model_named(n) {
                Some(m) => Some(device_mapping(m)),
                None => None,
            },
            ValueView::Array(items) => match item(items, 0) {
                Some(ValueView::Name(f)) => if f == bytes::text("Separation"@) {
                    tint_of(t, items, 1, fuel)
                } else if f == bytes::text("DeviceN"@) {
                    match item(items, 1) {
                        Some(names) => match std14::target(t, names) {
                            ValueView::Array(inks) => tint_of(t, items, inks.len() as int, fuel),
                            _ => None,
                        },
                        None => None,
                    }
                } else if f == bytes::text("Lab"@) {
                    match item(items, 1) {
                        Some(d) => lab_mapping(t, d),
                        None => None,
                    }
                } else if f == bytes::text("ICCBased"@) {
                    match icc_model_of(t, item(items, 1)) {
                        Some(m) => Some(device_mapping(m)),
                        None => None,
                    }
                } else if f == bytes::text("CalRGB"@) {
                    Some(device_mapping(ColorModel::Rgb))
                } else if f == bytes::text("CalGray"@) {
                    Some(device_mapping(ColorModel::Gray))
                } else {
                    None
                },
                _ => None,
            },
            _ => None,
        }
    }
}

/// The view of a mapping, if there is one.
pub open spec fn some_mapping(m: Option<Mapping>) -> Option<MappingView> {
    match m {
        Some(m) => Some(m@),
        None => None,
    }
}

fn device(model: ColorModel) -> (r: Mapping)
    ensures
        r@ == device_mapping(model),
{
    Mapping { components: components(model), model, kind: MappingKind::Device }
}

fn white_point() -> (r: Vec<Quantity>)
    ensures
        function::quantities_view(r@) == default_white(),
{
    let mut out: Vec<Quantity> = Vec::new();
    out.push(Quantity::Text(bytes::of("0.9505")));
    out.push(Quantity::Whole(1));
    out.push(Quantity::Text(bytes::of("1.089")));
    assert(function::quantities_view(out@) =~= default_white());
    out
}

fn ab_range() -> (r: Vec<Quantity>)
    ensures
        function::quantities_view(r@) == default_range(),
{
    let mut out: Vec<Quantity> = Vec::new();
    out.push(Quantity::Whole(-100));
    out.push(Quantity::Whole(100));
    out.push(Quantity::Whole(-100));
    out.push(Quantity::Whole(100));
    assert(function::quantities_view(out@) =~= default_range());
    out
}

fn floats_in(dict: &Dict, key: &str) -> (r: Option<Vec<Quantity>>)
    ensures
        function::some_quantities(r) == direct_floats(dict@, key@),
{
    match dict.get(key.as_bytes()) {
        Some(v) => function::quantities(v),
        None => None,
    }
}

fn lab(doc: &Pdf, v: &Value) -> (r: Option<Mapping>)
    requires
        doc.wf(),
    ensures
        some_mapping(r) == lab_mapping(doc@.objects, v@),
{
    let target = function::deref(doc, v);
    let dict = target.as_dict()?;
    let white = match floats_in(dict, "WhitePoint") {
        Some(w) => w,
        None => white_point(),
    };
    let range = match floats_in(dict, "Range") {
        Some(r) => r,
        None => ab_range(),
    };
    if white.len() != 3 || range.len() != 4 {
        return None;
    }
    Some(
        Mapping {
            components: 3,
            model: ColorModel::Rgb,
            kind: MappingKind::Lab { white, range },
        },
    )
}

fn tint(doc: &Pdf, items: &Vec<Value>, n: usize, fuel: usize) -> (r: Option<Mapping>)
    requires
        doc.wf(),
    ensures
        some_mapping(r) == tint_of(
            doc@.objects,
            object::objects_view(items@),
            n as int,
            fuel as nat,
        ),
    decreases fuel, 0int,
{
    if fuel == 0 {
        return None;
    }
    let second = get_item(items, 2)?;
    let third = get_item(items, 3)?;
    let alternate = build_fuel(doc, second, fuel - 1);
    let f = Function::parse(doc, third);
    match (alternate, f) {
        (Some(a), Some(f)) => {
            let few = match f.outputs() {
                Some(o) => o < a.components,
                None => false,
            };
            if few {
                return None;
            }
            Some(
                Mapping {
                    components: n,
                    model: a.model,
                    kind: MappingKind::Tint { function: f, alternate: Box::new(a) },
                },
            )
        },
        _ => None,
    }
}

fn build_fuel(doc: &Pdf, v: &Value, fuel: usize) -> (r: Option<Mapping>)
    requires
        doc.wf(),
    ensures
        some_mapping(r) == mapping_of(doc@.objects, v@, fuel as nat),
    decreases fuel, 1int,
{
    if fuel == 0 {
        return None;
    }
    let target = function::deref(doc, v);
    match target {
        Value::Name(n) => match device_model(n) {
            Some(m) => Some(device(m)),
            None => None,
        },
        Value::Array(items) => {
            proof {
                object::lemma_array_view(*items);
            }
            let first = get_item(items, 0)?;
            let f = first.as_name()?;
            if bytes::is_text(f, "Separation") {
                tint(doc, items, 1, fuel)
            } else if bytes::is_text(f, "DeviceN") {
                let names = get_item(items, 1)?;
                let inks = function::deref(doc, names).as_array()?;
                tint(doc, items, inks.len(), fuel)
            } else if bytes::is_text(f, "Lab") {
                let d = get_item(items, 1)?;
                lab(doc, d)
            } else if bytes::is_text(f, "ICCBased") {
                match icc_model(doc, get_item(items, 1)) {
                    Some(m) => Some(device(m)),
                    None => None,
                }
            } else if bytes::is_text(f, "CalRGB") {
                Some(device(ColorModel::Rgb))
            } else if bytes::is_text(f, "CalGray") {
                Some(device(ColorModel::Gray))
            } else {
                None
            }
        },
        _ => None,
    }
}

/// The ranges that leave a space's samples unchanged: 0..1 per component,
/// except Lab whose natural ranges are L 0..100 and the dictionary's `Range`
/// for a and b.
pub open spec fn natural_decode(m: MappingView) -> Seq<function::QuantityView> {
    match m.kind {
        KindView::Lab { white, range } => seq![
            function::QuantityView::Whole(0),
            function::QuantityView::Whole(100),
        ] + range,
        _ => Seq::new(
            2 * m.components as nat,
            |i: int|
                function::QuantityView::Whole(
                    if i % 2 == 0 {
                        0
                    } else {
                        1
                    },
                ),
        ),
    }
}

impl Mapping {
    /// Build from a color space object (name or array, possibly indirect).
    pub fn build(doc: &Pdf, cs: &Value) -> (r: Option<Mapping>)
        requires
            doc.wf(),
        ensures
            some_mapping(r) == mapping_of(doc@.objects, cs@, MAX_ALTERNATES as nat),
    {
        build_fuel(doc, cs, MAX_ALTERNATES)
    }

    /// The `Decode` array that leaves samples unchanged.
    pub fn default_decode(&self) -> (r: Vec<Quantity>)
        ensures
            function::quantities_view(r@) == natural_decode(self@),
    {
        let mut out: Vec<Quantity> = Vec::new();
        match &self.kind {
            MappingKind::Lab { white, range } => {
                out.push(Quantity::Whole(0));
                out.push(Quantity::Whole(100));
                let ghost front = function::quantities_view(out@);
                let ghost view = function::quantities_view(range@);
                let mut i: usize = 0;
                assert(front =~= seq![
                    function::QuantityView::Whole(0),
                    function::QuantityView::Whole(100),
                ]);
                assert(function::quantities_view(out@) =~= front + view.take(0));
                while i < range.len()
                    invariant
                        i <= range@.len(),
                        view == function::quantities_view(range@),
                        function::quantities_view(out@) == front + view.take(i as int),
                    decreases range@.len() - i,
                {
                    let ghost before = function::quantities_view(out@);
                    let q = match &range[i] {
                        Quantity::Whole(n) => Quantity::Whole(*n),
                        Quantity::Text(t) => Quantity::Text(bytes::copy(t)),
                    };
                    assert(q@ == view[i as int]);
                    out.push(q);
                    assert(function::quantities_view(out@) =~= before.push(view[i as int]));
                    i += 1;
                    assert(function::quantities_view(out@) =~= front + view.take(i as int));
                }
                assert(view.take(i as int) =~= view);
            },
            _ => {
                let ghost goal = natural_decode(self@);
                let mut i: usize = 0;
                while i < self.components
                    invariant
                        i <= self.components,
                        goal == natural_decode(self@),
                        !(self@.kind is Lab),
                        out@.len() == 2 * i,
                        function::quantities_view(out@) == goal.take(2 * i),
                    decreases self.components - i,
                {
                    let ghost before = function::quantities_view(out@);
                    out.push(Quantity::Whole(0));
                    out.push(Quantity::Whole(1));
                    assert(function::quantities_view(out@) =~= before.push(
                        function::QuantityView::Whole(0),
                    ).push(function::QuantityView::Whole(1)));
                    i += 1;
                    assert(function::quantities_view(out@) =~= goal.take(2 * i));
                }
                assert(function::quantities_view(out@) =~= goal);
            },
        }
        out
    }
}

// ------------------------------------------------------------- color spaces

/// How deep color spaces may nest.
pub const MAX_NESTING: usize = 128;

/// The most bytes that a palette may have.
pub const MAX_PALETTE_BYTES: usize = 1_048_576;

/// A palette's bytes: a string, or a stream's content.
pub open spec fn palette_bytes(t: document::TableView, lookup: Option<ValueView>) -> Option<
    Seq<u8>,
> {
    match lookup {
        None => None,
        Some(v) => match document::resolved(t, v) {
            Some(ValueView::String(s, _)) => Some(s),
            Some(ValueView::Stream(d, c)) => match backend::decompressed(
                d,
                c,
                MAX_PALETTE_BYTES,
            ) {
                Ok(b) => Some(b),
                Err(_) => None,
            },
            _ => None,
        },
    }
}

/// The entries of a palette over a mapped space, as they stand; none where
/// the space does not map or the palette is too short.
pub open spec fn palette_entries(
    t: document::TableView,
    lookup: Option<ValueView>,
    source: ValueView,
    entries: int,
) -> Option<Seq<u8>> {
    match (palette_bytes(t, lookup), mapping_of(t, source, MAX_ALTERNATES as nat)) {
        (Some(b), Some(m)) => if b.len() < entries * m.components {
            None
        } else {
            Some(b.take(entries * m.components))
        },
        _ => None,
    }
}

/// The color space of an `Indexed` array from its base.
pub open spec fn indexed_of(
    t: document::TableView,
    items: Seq<ValueView>,
    base: Option<SpaceView>,
) -> SpaceView {
    let hival: i64 = match item(items, 2) {
        Some(ValueView::Integer(h)) => h,
        _ => (-1) as i64,
    };
    if 0 <= hival <= 255 {
        match base {
            Some(SpaceView::Device(m)) => SpaceView::Indexed {
                base: m,
                hival: hival as u8,
                palette: None,
            },
            Some(SpaceView::Mapped { model, source, .. }) => match palette_entries(
                t,
                item(items, 3),
                source,
                hival + 1,
            ) {
                Some(entries) => SpaceView::Unmapped {
                    base: model,
                    hival: hival as u8,
                    source,
                    entries,
                },
                None => SpaceView::Other("Indexed palette does not map"@),
            },
            _ => SpaceView::Other("Indexed with unsupported base"@),
        }
    } else {
        SpaceView::Other("Indexed with unsupported base"@)
    }
}

/// The model of a space that can be an alternate.
pub open spec fn alternate_model(s: Option<SpaceView>) -> Option<ColorModel> {
    match s {
        Some(SpaceView::Device(m)) => Some(m),
        Some(SpaceView::Mapped { model, .. }) => Some(model),
        _ => None,
    }
}

/// The color space of a Separation, DeviceN or Lab array from its alternate:
/// the first two take the model of their alternate space; Lab converts to
/// RGB.
pub open spec fn mapped_of(
    t: document::TableView,
    items: Seq<ValueView>,
    alternate: Option<SpaceView>,
) -> SpaceView {
    let family = family_of(items);
    let lab = family == bytes::text("Lab"@);
    let components: Option<int> = if lab {
        Some(3)
    } else if family == bytes::text("Separation"@) {
        Some(1)
    } else {
        match item(items, 1) {
            Some(names) => match std14::target(t, names) {
                ValueView::Array(inks) => Some(inks.len() as int),
                _ => None,
            },
            None => None,
        }
    };
    let model = if lab {
        Some(ColorModel::Rgb)
    } else {
        alternate_model(alternate)
    };
    if components is Some && components->0 > 0 && model is Some {
        SpaceView::Mapped {
            components: components->0 as usize,
            model: model->0,
            source: ValueView::Array(items),
        }
    } else {
        SpaceView::Other(lossy_text(family) + " with an unsupported alternate"@)
    }
}

/// The color space that an object is. Spaces that nest deeper than the fuel
/// says cannot be resolved.
pub open spec fn space_of(t: document::TableView, v: ValueView, fuel: nat) -> SpaceView
    decreases fuel,
{
    if fuel == 0 {
        SpaceView::Other("unresolvable"@)
    } else {
        let below = (fuel - 1) as nat;
        match std14::target(t, v) {
            ValueView::Name(n) => match model_named(n) {
                Some(m) => SpaceView::Device(m),
                None => SpaceView::Other(lossy_text(n)),
            },
            ValueView::Array(items) => {
                let f = family_of(items);
                if f == bytes::text("ICCBased"@) {
                    match icc_model_of(t, item(items, 1)) {
                        Some(m) => SpaceView::Device(m),
                        None => SpaceView::Other("ICCBased"@),
                    }
                } else if f == bytes::text("Indexed"@) || f == bytes::text("I"@) {
                    indexed_of(
                        t,
                        items,
                        match item(items, 1) {
                            Some(b) => Some(space_of(t, b, below)),
                            None => None,
                        },
                    )
                } else if f == bytes::text("CalRGB"@) {
                    SpaceView::Device(ColorModel::Rgb)
                } else if f == bytes::text("CalGray"@) {
                    SpaceView::Device(ColorModel::Gray)
                } else if f == bytes::text("Separation"@) || f == bytes::text("DeviceN"@) || f
                    == bytes::text("Lab"@) {
                    mapped_of(
                        t,
                        items,
                        match item(items, 2) {
                            Some(a) => Some(space_of(t, a, below)),
                            None => None,
                        },
                    )
                } else if items.len() == 1 {
                    space_of(t, items[0], below)
                } else {
                    SpaceView::Other(lossy_text(f))
                }
            },
            _ => SpaceView::Other("unresolvable"@),
        }
    }
}

fn read_palette(doc: &Pdf, lookup: Option<&Value>) -> (r: Option<Vec<u8>>)
    requires
        doc.wf(),
    ensures
        backend::bytes_view(r) == palette_bytes(
            doc@.objects,
            match lookup {
                Some(v) => Some(v@),
                None => None,
            },
        ),
{
    let v = lookup?;
    let target = doc.dereference(v)?;
    match target {
        Value::String(s, _) => Some(bytes::copy(s)),
        Value::Stream(s) => match backend::decompress(s, MAX_PALETTE_BYTES) {
            Ok(b) => Some(b),
            Err(_) => None,
        },
        _ => None,
    }
}

fn read_entries(doc: &Pdf, lookup: Option<&Value>, source: &Value, entries: usize) -> (r: Option<
    Vec<u8>,
>)
    requires
        doc.wf(),
        entries <= 256,
    ensures
        backend::bytes_view(r) == palette_entries(
            doc@.objects,
            match lookup {
                Some(v) => Some(v@),
                None => None,
            },
            source@,
            entries as int,
        ),
{
    let data = read_palette(doc, lookup);
    let mapping = Mapping::build(doc, source);
    match (data, mapping) {
        (Some(b), Some(m)) => {
            assert(0 <= entries * m.components <= 256 * m.components) by (nonlinear_arith)
                requires
                    0 <= entries <= 256,
            ;
            let need: u128 = entries as u128 * m.components as u128;
            if (b.len() as u128) < need {
                return None;
            }
            let out = bytes::copy_range(&b, 0, need as usize);
            assert(out@ =~= b@.take(entries * m.components));
            Some(out)
        },
        _ => None,
    }
}

fn indexed(doc: &Pdf, items: &Vec<Value>, base: Option<ColorSpace>) -> (r: ColorSpace)
    requires
        doc.wf(),
    ensures
        r@ == indexed_of(
            doc@.objects,
            object::objects_view(items@),
            match base {
                Some(b) => Some(b@),
                None => None,
            },
        ),
{
    let hival: i64 = match get_item(items, 2) {
        Some(v) => match v.as_i64() {
            Some(h) => h,
            None => -1,
        },
        None => -1,
    };
    if hival < 0 || hival > 255 {
        return ColorSpace::Other("Indexed with unsupported base".to_owned());
    }
    match base {
        Some(ColorSpace::Device(m)) => ColorSpace::Indexed {
            base: m,
            hival: hival as u8,
            palette: None,
        },
        Some(ColorSpace::Mapped { components, model, source }) => {
            match read_entries(doc, get_item(items, 3), &source, hival as usize + 1) {
                Some(entries) => ColorSpace::Unmapped {
                    base: model,
                    hival: hival as u8,
                    source,
                    entries,
                },
                None => ColorSpace::Other("Indexed palette does not map".to_owned()),
            }
        },
        _ => ColorSpace::Other("Indexed with unsupported base".to_owned()),
    }
}

fn mapped(doc: &Pdf, items: &Vec<Value>, alternate: Option<ColorSpace>) -> (r: ColorSpace)
    requires
        doc.wf(),
    ensures
        r@ == mapped_of(
            doc@.objects,
            object::objects_view(items@),
            match alternate {
                Some(a) => Some(a@),
                None => None,
            },
        ),
{
    let f = family(items);
    let lab = bytes::is_text(&f, "Lab");
    let components: Option<usize> = if lab {
        Some(3)
    } else if bytes::is_text(&f, "Separation") {
        Some(1)
    } else {
        match get_item(items, 1) {
            Some(names) => match function::deref(doc, names).as_array() {
                Some(inks) => Some(inks.len()),
                None => None,
            },
            None => None,
        }
    };
    let model = if lab {
        Some(ColorModel::Rgb)
    } else {
        match alternate {
            Some(ColorSpace::Device(m)) => Some(m),
            Some(ColorSpace::Mapped { model, .. }) => Some(model),
            _ => None,
        }
    };
    match (components, model) {
        (Some(n), Some(m)) => {
            if n > 0 {
                let copy = copy_items(items);
                return ColorSpace::Mapped { components: n, model: m, source: copy };
            }
        },
        _ => {},
    }
    let mut why = lossy(&f);
    why.append(" with an unsupported alternate");
    ColorSpace::Other(why)
}

fn copy_items(items: &Vec<Value>) -> (r: Value)
    ensures
        r@ == ValueView::Array(object::objects_view(items@)),
{
    let mut out: Vec<Value> = Vec::new();
    let mut i: usize = 0;
    while i < items.len()
        invariant
            i <= items@.len(),
            out@.len() == i,
            forall|k: int| 0 <= k < i ==> (#[trigger] out@[k])@ == items@[k]@,
        decreases items@.len() - i,
    {
        out.push(items[i].copied());
        i += 1;
    }
    assert(object::objects_view(out@) =~= object::objects_view(items@));
    proof {
        object::lemma_array_view(out);
    }
    Value::Array(out)
}

fn space_fuel(doc: &Pdf, v: &Value, fuel: usize) -> (r: ColorSpace)
    requires
        doc.wf(),
    ensures
        r@ == space_of(doc@.objects, v@, fuel as nat),
    decreases fuel,
{
    if fuel == 0 {
        return ColorSpace::Other("unresolvable".to_owned());
    }
    let target = function::deref(doc, v);
    match target {
        Value::Name(n) => match device_model(n) {
            Some(m) => ColorSpace::Device(m),
            None => ColorSpace::Other(lossy(n)),
        },
        Value::Array(items) => {
            proof {
                object::lemma_array_view(*items);
            }
            let f = family(items);
            if bytes::is_text(&f, "ICCBased") {
                match icc_model(doc, get_item(items, 1)) {
                    Some(m) => ColorSpace::Device(m),
                    None => ColorSpace::Other("ICCBased".to_owned()),
                }
            } else if bytes::is_text(&f, "Indexed") || bytes::is_text(&f, "I") {
                let base = match get_item(items, 1) {
                    Some(b) => Some(space_fuel(doc, b, fuel - 1)),
                    None => None,
                };
                indexed(doc, items, base)
            } else if bytes::is_text(&f, "CalRGB") {
                ColorSpace::Device(ColorModel::Rgb)
            } else if bytes::is_text(&f, "CalGray") {
                ColorSpace::Device(ColorModel::Gray)
            } else if bytes::is_text(&f, "Separation") || bytes::is_text(&f, "DeviceN")
                || bytes::is_text(&f, "Lab") {
                let alternate = match get_item(items, 2) {
                    Some(a) => Some(space_fuel(doc, a, fuel - 1)),
                    None => None,
                };
                mapped(doc, items, alternate)
            } else if items.len() == 1 {
                assert(object::objects_view(items@)[0] == items@[0]@);
                space_fuel(doc, &items[0], fuel - 1)
            } else {
                ColorSpace::Other(lossy(&f))
            }
        },
        _ => ColorSpace::Other("unresolvable".to_owned()),
    }
}

/// The color space that an object is.
pub fn color_space(doc: &Pdf, v: &Value) -> (r: ColorSpace)
    requires
        doc.wf(),
    ensures
        r@ == space_of(doc@.objects, v@, MAX_NESTING as nat),
{
    space_fuel(doc, v, MAX_NESTING)
}

/// A color space once its palette has been turned into device colors.
pub open spec fn with_palette_of(s: SpaceView, palette: Option<Seq<u8>>) -> SpaceView {
    match s {
        SpaceView::Unmapped { base, hival, .. } => match palette {
            Some(p) => SpaceView::Indexed { base, hival, palette: Some(p) },
            None => SpaceView::Other("Indexed palette does not map"@),
        },
        other => other,
    }
}

/// A color space once its palette has been turned into device colors, or that
/// has failed.
pub fn with_palette(s: ColorSpace, palette: Option<Vec<u8>>) -> (r: ColorSpace)
    ensures
        r@ == with_palette_of(s@, backend::bytes_view(palette)),
{
    match s {
        ColorSpace::Unmapped { base, hival, .. } => match palette {
            Some(p) => ColorSpace::Indexed { base, hival, palette: Some(p) },
            None => ColorSpace::Other("Indexed palette does not map".to_owned()),
        },
        other => other,
    }
}

// ------------------------------------------------------------- images

/// The names among the first `n` objects, each followed to what it leads to.
pub open spec fn names_of(t: document::TableView, items: Seq<ValueView>, n: int) -> Seq<Seq<u8>>
    decreases n,
{
    if n <= 0 {
        Seq::empty()
    } else {
        match std14::target(t, items[n - 1]) {
            ValueView::Name(f) => names_of(t, items, n - 1).push(f),
            _ => names_of(t, items, n - 1),
        }
    }
}

/// Filter names; the entry and its elements may be indirect.
pub open spec fn filters_of(t: document::TableView, d: object::DictView) -> Seq<Seq<u8>> {
    match object::lookup(d, bytes::text("Filter"@)) {
        None => Seq::empty(),
        Some(v) => match std14::target(t, v) {
            ValueView::Name(f) => seq![f],
            ValueView::Array(items) => names_of(t, items, items.len() as int),
            _ => Seq::empty(),
        },
    }
}

/// The profile of an ICCBased space, where it is a reference.
pub open spec fn profile_of(t: document::TableView, d: object::DictView) -> Option<ObjectId> {
    match object::lookup(d, bytes::text("ColorSpace"@)) {
        None => None,
        Some(v) => match std14::target(t, v) {
            ValueView::Array(items) => if item(items, 0) == Some(encode::name_value("ICCBased"@)) {
                match item(items, 1) {
                    Some(ValueView::Reference(id)) => Some(id),
                    _ => None,
                }
            } else {
                None
            },
            _ => None,
        },
    }
}

/// The depth of an image. JPX codestreams carry their own; the dictionary
/// may omit it.
pub open spec fn depth_of(d: object::DictView, jpx: bool) -> Option<u8> {
    if encode::stencil(d) {
        Some(1)
    } else {
        match object::lookup(d, bytes::text("BitsPerComponent"@)) {
            Some(ValueView::Integer(b)) => Some((b as int % 256) as u8),
            _ => if jpx {
                Some(8)
            } else {
                None
            },
        }
    }
}

/// The color space of an image. JPX codestreams carry their own; the
/// dictionary may omit it.
pub open spec fn image_space(t: document::TableView, d: object::DictView, jpx: bool) -> Option<
    SpaceView,
> {
    if encode::stencil(d) {
        Some(SpaceView::Device(ColorModel::Gray))
    } else {
        match object::lookup(d, bytes::text("ColorSpace"@)) {
            Some(v) => Some(space_of(t, v, MAX_NESTING as nat)),
            None => if jpx {
                Some(SpaceView::Other("from JPX codestream"@))
            } else {
                None
            },
        }
    }
}

/// What an image's dictionary says; none without a size, a depth and a color
/// space.
pub open spec fn info_of(t: document::TableView, d: object::DictView) -> Option<InfoView> {
    let filters = filters_of(t, d);
    let jpx = filters.contains(bytes::text("JPXDecode"@));
    let width = object::lookup(d, bytes::text("Width"@));
    let height = object::lookup(d, bytes::text("Height"@));
    match (width, height, depth_of(d, jpx), image_space(t, d, jpx)) {
        (
            Some(ValueView::Integer(w)),
            Some(ValueView::Integer(h)),
            Some(bpc),
            Some(color),
        ) => if 0 < w <= u32::MAX && 0 < h <= u32::MAX {
            Some(
                InfoView {
                    width: w as u32,
                    height: h as u32,
                    bpc,
                    color,
                    filters,
                    decode: direct_floats(d, "Decode"@),
                    is_stencil: encode::stencil(d),
                    has_color_key_mask: match object::lookup(d, bytes::text("Mask"@)) {
                        Some(ValueView::Array(_)) => true,
                        _ => false,
                    },
                    icc_profile: profile_of(t, d),
                },
            )
        } else {
            None
        },
        _ => None,
    }
}

fn filters(doc: &Pdf, dict: &Dict) -> (r: Vec<Vec<u8>>)
    requires
        doc.wf(),
    ensures
        names_view(r@) == filters_of(doc@.objects, dict@),
{
    let mut out: Vec<Vec<u8>> = Vec::new();
    assert(names_view(out@) =~= Seq::empty());
    let filter = match dict.get("Filter".as_bytes()) {
        Some(v) => function::deref(doc, v),
        None => {
            return out;
        },
    };
    match filter {
        Value::Name(n) => {
            out.push(bytes::copy(n));
            assert(names_view(out@) =~= seq![n@]);
        },
        Value::Array(items) => {
            proof {
                object::lemma_array_view(*items);
            }
            let ghost view = object::objects_view(items@);
            let mut i: usize = 0;
            while i < items.len()
                invariant
                    i <= items@.len(),
                    doc.wf(),
                    view == object::objects_view(items@),
                    names_view(out@) == names_of(doc@.objects, view, i as int),
                decreases items@.len() - i,
            {
                let ghost before = names_view(out@);
                assert(view[i as int] == items@[i as int]@);
                match function::deref(doc, &items[i]).as_name() {
                    Some(n) => {
                        out.push(bytes::copy(n));
                        assert(names_view(out@) =~= before.push(n@));
                    },
                    None => {},
                }
                i += 1;
            }
        },
        _ => {},
    }
    out
}

fn has_name(names: &Vec<Vec<u8>>, name: &str) -> (r: bool)
    ensures
        r == names_view(names@).contains(bytes::text(name@)),
{
    let ghost view = names_view(names@);
    let mut i: usize = 0;
    while i < names.len()
        invariant
            i <= names@.len(),
            view == names_view(names@),
            forall|k: int| 0 <= k < i ==> #[trigger] view[k] != bytes::text(name@),
        decreases names@.len() - i,
    {
        assert(view[i as int] == names@[i as int]@);
        if bytes::is_text(&names[i], name) {
            return true;
        }
        i += 1;
    }
    false
}

fn icc_profile_id(doc: &Pdf, dict: &Dict) -> (r: Option<ObjectId>)
    requires
        doc.wf(),
    ensures
        r == profile_of(doc@.objects, dict@),
{
    let cs = match dict.get("ColorSpace".as_bytes()) {
        Some(v) => function::deref(doc, v),
        None => {
            return None;
        },
    };
    let items = cs.as_array()?;
    let first = get_item(items, 0)?;
    if !first.is_name("ICCBased") {
        return None;
    }
    match get_item(items, 1) {
        Some(v) => v.as_reference(),
        None => None,
    }
}

fn integer_at(dict: &Dict, key: &str) -> (r: Option<i64>)
    ensures
        match r {
            Some(i) => object::lookup(dict@, bytes::text(key@)) == Some(ValueView::Integer(i)),
            None => !(object::lookup(dict@, bytes::text(key@)) is Some && object::lookup(
                dict@,
                bytes::text(key@),
            )->0 is Integer),
        },
{
    match dict.get(key.as_bytes()) {
        Some(v) => v.as_i64(),
        None => None,
    }
}

fn depth(dict: &Dict, jpx: bool) -> (r: Option<u8>)
    ensures
        r == depth_of(dict@, jpx),
{
    if encode::is_stencil(dict) {
        return Some(1);
    }
    match integer_at(dict, "BitsPerComponent") {
        Some(b) => {
            let low: i64 = b % 256;
            let bpc: u8 = (if low < 0 {
                low + 256
            } else {
                low
            }) as u8;
            Some(bpc)
        },
        None => if jpx {
            Some(8)
        } else {
            None
        },
    }
}

/// What an image's dictionary says; `None` without a size, a depth and a
/// color space.
pub fn read_info(doc: &Pdf, dict: &Dict) -> (r: Option<ImageInfo>)
    requires
        doc.wf(),
    ensures
        match r {
            Some(i) => info_of(doc@.objects, dict@) == Some(i@),
            None => info_of(doc@.objects, dict@) is None,
        },
{
    let width = integer_at(dict, "Width")?;
    let height = integer_at(dict, "Height")?;
    if width <= 0 || height <= 0 || width > u32::MAX as i64 || height > u32::MAX as i64 {
        return None;
    }
    let stencil = encode::is_stencil(dict);
    let names = filters(doc, dict);
    // JPX codestreams carry their own depth and color space; the dictionary
    // may omit both.
    let jpx = has_name(&names, "JPXDecode");
    let bpc = depth(dict, jpx)?;
    let color = if stencil {
        ColorSpace::Device(ColorModel::Gray)
    } else {
        match dict.get("ColorSpace".as_bytes()) {
            Some(v) => color_space(doc, v),
            None => {
                if !jpx {
                    return None;
                }
                ColorSpace::Other("from JPX codestream".to_owned())
            },
        }
    };
    let has_color_key_mask = match dict.get("Mask".as_bytes()) {
        Some(v) => v.as_array().is_some(),
        None => false,
    };
    Some(
        ImageInfo {
            width: width as u32,
            height: height as u32,
            bpc,
            color,
            filters: names,
            decode: floats_in(dict, "Decode"),
            is_stencil: stencil,
            has_color_key_mask,
            icc_profile: icc_profile_id(doc, dict),
        },
    )
}

// ------------------------------------------------------------- laws

/// What tells the names of color spaces apart.
proof fn lemma_family_names()
    ensures
        "DeviceGray"@.len() == 10 && "DeviceGray"@[6] == 'G',
        "G"@.len() == 1 && "G"@[0] == 'G',
        "CalGray"@.len() == 7 && "CalGray"@[0] == 'C',
        "DeviceRGB"@.len() == 9,
        "RGB"@.len() == 3 && "RGB"@[0] == 'R',
        "CalRGB"@.len() == 6,
        "DeviceCMYK"@.len() == 10 && "DeviceCMYK"@[6] == 'C',
        "CMYK"@.len() == 4,
        "ICCBased"@.len() == 8,
        "Indexed"@.len() == 7 && "Indexed"@[0] == 'I',
        "I"@.len() == 1 && "I"@[0] == 'I',
        "Separation"@.len() == 10 && "Separation"@[6] == 't',
        "DeviceN"@.len() == 7 && "DeviceN"@[0] == 'D',
        "Lab"@.len() == 3 && "Lab"@[0] == 'L',
{
    reveal_strlit("DeviceGray");
    reveal_strlit("G");
    reveal_strlit("CalGray");
    reveal_strlit("DeviceRGB");
    reveal_strlit("RGB");
    reveal_strlit("CalRGB");
    reveal_strlit("DeviceCMYK");
    reveal_strlit("CMYK");
    reveal_strlit("ICCBased");
    reveal_strlit("Indexed");
    reveal_strlit("I");
    reveal_strlit("Separation");
    reveal_strlit("DeviceN");
    reveal_strlit("Lab");
}

/// Whether a space is a device space of so many components.
pub open spec fn is_device_of(s: SpaceView, components: int) -> bool {
    match s {
        SpaceView::Device(m) => components_of(m) == components,
        _ => false,
    }
}

/// A gray space has one component, an RGB space three and a CMYK space four,
/// by whichever of its names it is called.
pub proof fn named_spaces_have_their_components(
    t: document::TableView,
    v: ValueView,
    n: Seq<u8>,
    fuel: nat,
)
    requires
        fuel > 0,
        std14::target(t, v) == ValueView::Name(n),
    ensures
        n == bytes::text("DeviceGray"@) || n == bytes::text("G"@) || n == bytes::text("CalGray"@)
            ==> is_device_of(space_of(t, v, fuel), 1),
        n == bytes::text("DeviceRGB"@) || n == bytes::text("RGB"@) || n == bytes::text("CalRGB"@)
            ==> is_device_of(space_of(t, v, fuel), 3),
        n == bytes::text("DeviceCMYK"@) || n == bytes::text("CMYK"@) ==> is_device_of(
            space_of(t, v, fuel),
            4,
        ),
        space_of(t, v, fuel) is Device || space_of(t, v, fuel) is Other,
{
    bytes::lemma_texts_differ();
    lemma_family_names();
}

/// A profile's space has the number of components that the profile says,
/// where that is one, three or four, and is not supported otherwise.
pub proof fn profiles_tell_their_components(
    t: document::TableView,
    v: ValueView,
    items: Seq<ValueView>,
    d: object::DictView,
    content: Seq<u8>,
    n: i64,
    fuel: nat,
)
    requires
        fuel > 0,
        std14::target(t, v) == ValueView::Array(items),
        items.len() >= 2,
        items[0] == ValueView::Name(bytes::text("ICCBased"@)),
        document::resolved(t, items[1]) == Some(ValueView::Stream(d, content)),
        object::lookup(d, bytes::text("N"@)) == Some(ValueView::Integer(n)),
    ensures
        n == 1 || n == 3 || n == 4 ==> is_device_of(space_of(t, v, fuel), n as int),
        !(n == 1 || n == 3 || n == 4) ==> space_of(t, v, fuel) is Other,
        mapping_of(t, v, fuel) matches Some(m) ==> m.components == n && components_of(m.model) == n,
{
    bytes::lemma_texts_differ();
    lemma_family_names();
}

/// A Separation space has one component and a DeviceN space one for each ink;
/// their colors are those of the alternate, whose model they have. A Lab space
/// has three and becomes RGB.
pub proof fn inks_are_counted(
    t: document::TableView,
    v: ValueView,
    items: Seq<ValueView>,
    inks: Seq<ValueView>,
    model: ColorModel,
    fuel: nat,
)
    requires
        fuel > 1,
        std14::target(t, v) == ValueView::Array(items),
        items.len() >= 4,
        items[0] == ValueView::Name(bytes::text("Lab"@)) || space_of(
            t,
            items[2],
            (fuel - 1) as nat,
        ) == SpaceView::Device(model),
        items[0] == ValueView::Name(bytes::text("DeviceN"@)) ==> std14::target(t, items[1])
            == ValueView::Array(inks) && 0 < inks.len() <= usize::MAX,
    ensures
        items[0] == ValueView::Name(bytes::text("Separation"@)) ==> space_of(t, v, fuel) == (
        SpaceView::Mapped { components: 1, model, source: ValueView::Array(items) }),
        items[0] == ValueView::Name(bytes::text("DeviceN"@)) ==> space_of(t, v, fuel) == (
        SpaceView::Mapped {
            components: inks.len() as usize,
            model,
            source: ValueView::Array(items),
        }),
        items[0] == ValueView::Name(bytes::text("Lab"@)) ==> (match space_of(t, v, fuel) {
            SpaceView::Mapped { components, model: m, source } => components == 3 && components_of(
                m,
            ) == 3 && source == ValueView::Array(items),
            _ => false,
        }),
{
    bytes::lemma_texts_differ();
    lemma_family_names();
}

/// An indexed space over a device space has the model of its base and the
/// highest index that the array says; an index past a byte is not supported.
pub proof fn indexed_spaces_have_their_base(
    t: document::TableView,
    v: ValueView,
    items: Seq<ValueView>,
    model: ColorModel,
    hival: i64,
    fuel: nat,
)
    requires
        fuel > 1,
        std14::target(t, v) == ValueView::Array(items),
        items.len() >= 3,
        items[0] == ValueView::Name(bytes::text("Indexed"@)) || items[0] == ValueView::Name(
            bytes::text("I"@),
        ),
        space_of(t, items[1], (fuel - 1) as nat) == SpaceView::Device(model),
        items[2] == ValueView::Integer(hival),
    ensures
        0 <= hival < 256 ==> space_of(t, v, fuel) == (SpaceView::Indexed {
            base: model,
            hival: hival as u8,
            palette: None,
        }),
        !(0 <= hival < 256) ==> space_of(t, v, fuel) is Other,
{
    bytes::lemma_texts_differ();
    lemma_family_names();
}

/// What is read of an image stands in its dictionary: its size, its depth
/// unless it is a stencil or may leave it out, its `Decode` array, and its
/// mask by color where that is an array.
pub proof fn images_are_as_their_dictionary_says(t: document::TableView, d: object::DictView)
    ensures
        info_of(t, d) matches Some(i) ==> {
            &&& object::lookup(d, bytes::text("Width"@)) == Some(ValueView::Integer(i.width as i64))
            &&& object::lookup(d, bytes::text("Height"@)) == Some(
                ValueView::Integer(i.height as i64),
            )
            &&& i.width > 0 && i.height > 0
            &&& i.is_stencil <==> object::lookup(d, bytes::text("ImageMask"@)) == Some(
                ValueView::Boolean(true),
            )
            &&& i.is_stencil ==> i.bpc == 1 && is_device_of(i.color, 1)
            &&& !i.is_stencil ==> (object::lookup(d, bytes::text("BitsPerComponent"@)) matches Some(
                ValueView::Integer(b),
            ) ==> (0 <= b < 256 ==> i.bpc == b))
            &&& i.has_color_key_mask <==> (object::lookup(d, bytes::text("Mask"@)) matches Some(
                ValueView::Array(_),
            ))
            &&& i.decode is None <==> direct_floats(d, "Decode"@) is None
        },
        object::lookup(d, bytes::text("Width"@)) is None ==> info_of(t, d) is None,
        object::lookup(d, bytes::text("Height"@)) is None ==> info_of(t, d) is None,
{
}

/// The codec of an image is the first of its filters that is one of the four
/// image codecs.
pub proof fn codecs_are_the_first(filters: Seq<Seq<u8>>, i: int, codec: Seq<u8>)
    requires
        0 <= i < filters.len(),
        codec == bytes::text("DCTDecode"@) || codec == bytes::text("JPXDecode"@) || codec
            == bytes::text("CCITTFaxDecode"@) || codec == bytes::text("JBIG2Decode"@),
        filters[i] == codec,
        forall|j: int|
            0 <= j < i ==> #[trigger] filters[j] != bytes::text("DCTDecode"@) && filters[j]
                != bytes::text("JPXDecode"@) && filters[j] != bytes::text("CCITTFaxDecode"@)
                && filters[j] != bytes::text("JBIG2Decode"@),
    ensures
        codec_from(filters, 0) == Some(codec),
{
    lemma_codec(filters, 0, i);
}

proof fn lemma_codec(filters: Seq<Seq<u8>>, from: int, i: int)
    requires
        0 <= from <= i < filters.len(),
        is_codec(filters[i]),
        forall|j: int| from <= j < i ==> !is_codec(#[trigger] filters[j]),
    ensures
        codec_from(filters, from) == Some(filters[i]),
    decreases i - from,
{
    if from < i {
        assert(!is_codec(filters[from]));
        lemma_codec(filters, from + 1, i);
    }
}

/// An image is bitonal just where it is a stencil or has one bit of one
/// component; palettes make indexed images, and other images of one component
/// are gray.
pub proof fn classes_follow_components(i: InfoView)
    ensures
        class_of(i) == Class::Bitonal <==> i.is_stencil || (i.bpc == 1 && is_device_of(i.color, 1)),
        !(class_of(i) == Class::Bitonal) ==> (class_of(i) == Class::Indexed <==> i.color is Indexed
            || i.color is Unmapped),
        !(class_of(i) == Class::Bitonal) ==> (class_of(i) == Class::Gray <==> is_device_of(
            i.color,
            1,
        ) || (i.color matches SpaceView::Mapped { model, .. } && components_of(model) == 1)),
{
}

} // verus!
