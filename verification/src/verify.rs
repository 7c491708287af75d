//! Output verification, structural level.
//!
//! Re-reads the serialized output with `hayro-syntax`, a parser that shares
//! no code with `lopdf`, and checks that the file is usable: it loads, it has
//! the expected page count, every page's content stream decodes, and every
//! stream (images included) decodes with its declared filters. A problem
//! here is a bug in the pipeline, never a warning: callers must not write
//! the file.
pub mod render;

use vstd::prelude::*;
use vstd::string::StringExecFns;

use hayro_syntax::object::Stream as ReaderStream;
use hayro_syntax::object::stream::ImageDecodeParams;
use hayro_syntax::object::{Array, Name};

use crate::bytes;
use crate::text;

verus! {

/// Problems are capped so a badly broken file does not flood the report.
pub const MAX_PROBLEMS: usize = 50;

/// What a check of a file found.
#[derive(Debug)]
pub struct Verification {
    pub pages: usize,
    pub objects: usize,
    pub streams_checked: usize,
    pub problems: Vec<String>,
}

/// What a check of a file found.
pub struct VerificationView {
    pub pages: int,
    pub objects: int,
    pub streams_checked: int,
    pub problems: Seq<Seq<char>>,
}

pub open spec fn texts_view(t: Seq<String>) -> Seq<Seq<char>> {
    t.map_values(|s: String| s@)
}

impl View for Verification {
    type V = VerificationView;

    open spec fn view(&self) -> VerificationView {
        VerificationView {
            pages: self.pages as int,
            objects: self.objects as int,
            streams_checked: self.streams_checked as int,
            problems: texts_view(self.problems@),
        }
    }
}

/// Problem categories, for comparing an output against its input. Object
/// numbers change between the two, so comparison is by category count.
#[derive(Debug, Clone, Copy, PartialEq, Eq, Hash, PartialOrd, Ord, Structural)]
pub enum Category {
    Parse,
    PageCount,
    ContentStream,
    Stream,
    Image,
}

/// Whether bytes stand in others from `at` on.
pub open spec fn stands_in(part: Seq<u8>, whole: Seq<u8>, at: int) -> bool {
    0 <= at && at + part.len() <= whole.len() && whole.subrange(at, at + part.len()) == part
}

/// Whether a text holds another.
pub open spec fn mentions(whole: Seq<char>, part: Seq<char>) -> bool {
    exists|at: int| stands_in(bytes::text(part), bytes::text(whole), at)
}

/// The category of a problem, by its wording.
pub open spec fn category_of(problem: Seq<char>) -> Category {
    if mentions(problem, "does not parse"@) {
        Category::Parse
    } else if mentions(problem, "page count"@) {
        Category::PageCount
    } else if mentions(problem, "content stream"@) {
        Category::ContentStream
    } else if mentions(problem, "(ImageDecode)"@) {
        Category::Image
    } else {
        Category::Stream
    }
}

/// How many of the first `n` problems fall into a category.
pub open spec fn count_of(problems: Seq<Seq<char>>, c: Category, n: int) -> int
    decreases n,
{
    if n <= 0 || n > problems.len() {
        0
    } else {
        count_of(problems, c, n - 1) + if category_of(problems[n - 1]) == c {
            1int
        } else {
            0
        }
    }
}

/// How many problems fall into a category.
pub open spec fn total_of(v: VerificationView, c: Category) -> int {
    count_of(v.problems, c, v.problems.len() as int)
}

/// The categories of the first `n` problems, in the order in which they come
/// up.
pub open spec fn categories_of(problems: Seq<Seq<char>>, n: int) -> Seq<Category>
    decreases n,
{
    if n <= 0 || n > problems.len() {
        Seq::empty()
    } else {
        let front = categories_of(problems, n - 1);
        let c = category_of(problems[n - 1]);
        if front.contains(c) {
            front
        } else {
            front.push(c)
        }
    }
}

/// Of the first `n` categories those with more problems than a baseline has,
/// each with both counts.
pub open spec fn regressed(
    v: VerificationView,
    baseline: VerificationView,
    categories: Seq<Category>,
    n: int,
) -> Seq<(Category, usize, usize)>
    decreases n,
{
    if n <= 0 || n > categories.len() {
        Seq::empty()
    } else {
        let front = regressed(v, baseline, categories, n - 1);
        let c = categories[n - 1];
        let (here, there) = (total_of(v, c), total_of(baseline, c));
        if here > there {
            front.push((c, here as usize, there as usize))
        } else {
            front
        }
    }
}

/// Problems that go beyond what a baseline already had.
pub open spec fn regressions(v: VerificationView, baseline: VerificationView) -> Seq<
    (Category, usize, usize),
> {
    let categories = categories_of(v.problems, v.problems.len() as int);
    regressed(v, baseline, categories, categories.len() as int)
}

fn holds_text(whole: &String, part: &str) -> (r: bool)
    ensures
        r == mentions(whole@, part@),
{
    let w = whole.as_str().as_bytes();
    let p = part.as_bytes();
    let (n, m): (usize, usize) = (w.len(), p.len());
    if m > n {
        return false;
    }
    let mut at: usize = 0;
    while at <= n - m
        invariant
            n == w@.len(),
            m == p@.len(),
            m <= n,
            at <= n - m + 1,
            w@ == bytes::text(whole@),
            p@ == bytes::text(part@),
            forall|k: int| 0 <= k < at ==> !#[trigger] stands_in(p@, w@, k),
        decreases n - at,
    {
        let piece = bytes::copy_range(w, at, at + m);
        if bytes::same(&piece, p) {
            assert(stands_in(p@, w@, at as int));
            return true;
        }
        assert(!stands_in(p@, w@, at as int));
        if at == n - m {
            assert forall|k: int| !#[trigger] stands_in(p@, w@, k) by {}
            return false;
        }
        at += 1;
    }
    false
}

/// The category of a problem, by its wording.
pub fn categorize(problem: &String) -> (r: Category)
    ensures
        r == category_of(problem@),
{
    if holds_text(problem, "does not parse") {
        Category::Parse
    } else if holds_text(problem, "page count") {
        Category::PageCount
    } else if holds_text(problem, "content stream") {
        Category::ContentStream
    } else if holds_text(problem, "(ImageDecode)") {
        Category::Image
    } else {
        Category::Stream
    }
}

/// Problems with one more, unless there are enough.
pub open spec fn noted(problems: Seq<Seq<char>>, more: Seq<char>) -> Seq<Seq<char>> {
    if problems.len() < MAX_PROBLEMS {
        problems.push(more)
    } else {
        problems
    }
}

/// The problems as lines.
pub open spec fn problem_lines(problems: Seq<Seq<char>>, n: int) -> Seq<char>
    decreases n,
{
    if n <= 0 || n > problems.len() {
        Seq::empty()
    } else {
        problem_lines(problems, n - 1) + "\n  - "@ + problems[n - 1]
    }
}

/// What a check found, in words.
pub open spec fn summary(v: VerificationView) -> Seq<char> {
    "verify: "@ + text::number(v.pages as nat) + " pages, "@ + text::number(v.objects as nat)
        + " objects, "@ + text::number(v.streams_checked as nat) + " streams decoded, "@
        + text::number(v.problems.len()) + " problems"@ + problem_lines(
        v.problems,
        v.problems.len() as int,
    )
}

impl Verification {
    /// Nothing found, nothing looked at.
    pub fn new() -> (r: Verification)
        ensures
            r@ == (VerificationView {
                pages: 0,
                objects: 0,
                streams_checked: 0,
                problems: Seq::empty(),
            }),
    {
        let r = Verification { pages: 0, objects: 0, streams_checked: 0, problems: Vec::new() };
        assert(texts_view(r.problems@) =~= Seq::empty());
        r
    }

    pub fn is_ok(&self) -> (r: bool)
        ensures
            r == (self@.problems.len() == 0),
    {
        self.problems.len() == 0
    }

    fn problem(&mut self, msg: String)
        ensures
            final(self)@ == (VerificationView {
                problems: noted(old(self)@.problems, msg@),
                ..old(self)@
            }),
    {
        let ghost before = self@.problems;
        if self.problems.len() < MAX_PROBLEMS {
            self.problems.push(msg);
            assert(texts_view(self.problems@) =~= before.push(msg@));
        }
    }

    /// What the check found, in words.
    pub fn to_text(&self) -> (r: String)
        ensures
            r@ == summary(self@),
    {
        let ghost view = self@.problems;
        let mut out = "verify: ".to_owned();
        text::push_number(&mut out, self.pages as u128);
        out.append(" pages, ");
        text::push_number(&mut out, self.objects as u128);
        out.append(" objects, ");
        text::push_number(&mut out, self.streams_checked as u128);
        out.append(" streams decoded, ");
        text::push_number(&mut out, self.problems.len() as u128);
        out.append(" problems");
        let ghost head = out@;
        let mut i: usize = 0;
        assert(out@ =~= head + problem_lines(view, 0));
        while i < self.problems.len()
            invariant
                i <= self.problems@.len(),
                view == texts_view(self.problems@),
                out@ == head + problem_lines(view, i as int),
            decreases self.problems@.len() - i,
        {
            assert(view[i as int] == self.problems@[i as int]@);
            out.append("\n  - ");
            out.append(self.problems[i].as_str());
            i += 1;
            assert(out@ =~= head + problem_lines(view, i as int));
        }
        out
    }

    fn count(&self, c: Category) -> (r: usize)
        ensures
            r == total_of(self@, c),
    {
        let ghost view = self@.problems;
        let mut n: usize = 0;
        let mut i: usize = 0;
        while i < self.problems.len()
            invariant
                i <= self.problems@.len(),
                view == texts_view(self.problems@),
                n == count_of(view, c, i as int),
                n <= i,
            decreases self.problems@.len() - i,
        {
            assert(view[i as int] == self.problems@[i as int]@);
            if categorize(&self.problems[i]) == c {
                n += 1;
            }
            i += 1;
        }
        n
    }

    fn categories(&self) -> (r: Vec<Category>)
        ensures
            r@ == categories_of(self@.problems, self@.problems.len() as int),
    {
        let ghost view = self@.problems;
        let mut out: Vec<Category> = Vec::new();
        let mut i: usize = 0;
        while i < self.problems.len()
            invariant
                i <= self.problems@.len(),
                view == texts_view(self.problems@),
                out@ == categories_of(view, i as int),
            decreases self.problems@.len() - i,
        {
            assert(view[i as int] == self.problems@[i as int]@);
            let c = categorize(&self.problems[i]);
            let mut known = false;
            let mut k: usize = 0;
            while k < out.len()
                invariant
                    k <= out@.len(),
                    known == exists|j: int| 0 <= j < k && #[trigger] out@[j] == c,
                decreases out@.len() - k,
            {
                if out[k] == c {
                    known = true;
                }
                k += 1;
            }
            assert(known == out@.contains(c));
            if !known {
                out.push(c);
            }
            i += 1;
        }
        out
    }

    /// Problems in `self` that go beyond what `baseline` (normally the
    /// verification of the input) already had, per category:
    /// `(category, count here, count in baseline)`.
    pub fn regressions_from(&self, baseline: &Verification) -> (r: Vec<(Category, usize, usize)>)
        ensures
            r@ == regressions(self@, baseline@),
    {
        let categories = self.categories();
        let mut out: Vec<(Category, usize, usize)> = Vec::new();
        let mut i: usize = 0;
        while i < categories.len()
            invariant
                i <= categories@.len(),
                out@ == regressed(self@, baseline@, categories@, i as int),
            decreases categories@.len() - i,
        {
            let c = categories[i];
            let here = self.count(c);
            let there = baseline.count(c);
            if here > there {
                out.push((c, here, there));
            }
            i += 1;
        }
        out
    }
}

// ------------------------------------------------------------- reading

/// What a reader may find of each page: whether it has contents, and whether its
/// content stream decodes; or why the file does not load. A relation and not a
/// function: where the page tree is broken, the pages are taken from all objects
/// in the order in which a hash map is walked.
pub uninterp spec fn may_read(
    file: Seq<u8>,
    pages: Result<Seq<(bool, bool)>, Seq<char>>,
) -> bool;

pub open spec fn pages_view(r: Result<Vec<(bool, bool)>, String>) -> Result<
    Seq<(bool, bool)>,
    Seq<char>,
> {
    match r {
        Ok(p) => Ok(p@),
        Err(e) => Err(e@),
    }
}

/// `hayro_syntax::Pdf::new` and the pages that it finds: of each whether its
/// dictionary has `Contents` and whether `page_stream` gives any, an error by
/// its debug text. The result is what the reader may find; in which order the
/// pages come where the page tree is broken is left unsaid.
#[verifier::external_body]
fn read_pages(file: &Vec<u8>) -> (r: Result<Vec<(bool, bool)>, String>)
    ensures
        may_read(file@, pages_view(r)),
{
    let pdf = hayro_syntax::Pdf::new(file.clone()).map_err(|e| format!("{e:?}"))?;
    let pages = pdf.pages();
    Ok(
        pages.iter().map(
            |p| (p.raw().contains_key(b"Contents"), p.page_stream().is_some()),
        ).collect(),
    )
}

/// What the dictionary of a stream says, as far as decoding depends on it.
#[derive(Debug)]
pub struct StreamFacts {
    /// The object's number, as it is printed.
    pub id: String,
    pub kind: Option<String>,
    pub subtype: Option<String>,
    /// The color space, where it is a name.
    pub space: Option<String>,
    /// The first item of the color space, where it is an array.
    pub family: Option<String>,
    pub bpc: Option<u8>,
    pub width: Option<u32>,
    pub height: Option<u32>,
}

/// What is known of a stream.
pub struct FactsView {
    pub id: Seq<char>,
    pub kind: Option<Seq<char>>,
    pub subtype: Option<Seq<char>>,
    pub space: Option<Seq<char>>,
    pub family: Option<Seq<char>>,
    pub bpc: Option<u8>,
    pub width: Option<u32>,
    pub height: Option<u32>,
}

pub open spec fn text_view(s: Option<String>) -> Option<Seq<char>> {
    match s {
        Some(s) => Some(s@),
        None => None,
    }
}

impl View for StreamFacts {
    type V = FactsView;

    open spec fn view(&self) -> FactsView {
        FactsView {
            id: self.id@,
            kind: text_view(self.kind),
            subtype: text_view(self.subtype),
            space: text_view(self.space),
            family: text_view(self.family),
            bpc: self.bpc,
            width: self.width,
            height: self.height,
        }
    }
}

pub open spec fn facts_view(f: Seq<Option<StreamFacts>>) -> Seq<Option<FactsView>> {
    f.map_values(
        |f: Option<StreamFacts>|
            match f {
                Some(f) => Some(f@),
                None => None,
            },
    )
}

/// What came of decoding an object: its number and what went wrong, if it is a
/// stream.
pub type Decoded = Option<(String, Option<String>)>;

/// What came of decoding an object.
pub type DecodedView = Option<(Seq<char>, Option<Seq<char>>)>;

pub open spec fn decoded_view(d: Decoded) -> DecodedView {
    match d {
        Some((id, e)) => Some((id@, text_view(e))),
        None => None,
    }
}

pub open spec fn errors_view(e: Seq<Decoded>) -> Seq<DecodedView> {
    e.map_values(|d: Decoded| decoded_view(d))
}

/// The streams to decode, by their numbers, and how each is to be read.
pub open spec fn plan_view(p: Seq<(String, Reading)>) -> Seq<(Seq<char>, Reading)> {
    p.map_values(|e: (String, Reading)| (e.0@, e.1))
}

/// A stream of `hayro_syntax`.
#[verifier::external_type_specification]
#[verifier::external_body]
pub struct ExHayroStream<'a>(ReaderStream<'a>);

/// What the dictionary of a stream of `hayro_syntax` says, entry for entry.
#[verifier::external_body]
fn stream_facts(s: &ReaderStream<'_>) -> (r: StreamFacts) {
    let d = s.dict();
    let name = |key: &[u8]| d.get::<Name<'_>>(key).map(|n| n.as_str().to_owned());
    let space = d.get::<Array<'_>>(b"ColorSpace").and_then(|a| a.iter::<Name<'_>>().next());
    let family = space.map(|n| n.as_str().to_owned());
    let (bpc, width, height) = (d.get(b"BitsPerComponent"), d.get(b"Width"), d.get(b"Height"));
    let (kind, subtype, space) = (name(b"Type"), name(b"Subtype"), name(b"ColorSpace"));
    StreamFacts { id: format!("{:?}", s.obj_id()), kind, subtype, space, family, bpc, width, height }
}

/// What a reader may list of a file's objects: of each that is a stream what
/// its dictionary says. A relation and not a function: objects at one place in
/// the file come in the order in which a hash map is walked.
pub uninterp spec fn may_list(file: Seq<u8>, objects: Seq<Option<FactsView>>) -> bool;

/// `hayro_syntax::Pdf::objects`, of each object that is a stream what its
/// dictionary says; no object where the file does not load. The result is what
/// the reader may list of the file; in which order is left unsaid.
#[verifier::external_body]
fn read_objects(file: &Vec<u8>) -> (r: Vec<Option<StreamFacts>>)
    ensures
        may_list(file@, facts_view(r@)),
{
    match hayro_syntax::Pdf::new(file.clone()) {
        Ok(pdf) => pdf.objects().into_iter().map(
            |o| o.into_stream().map(|s| stream_facts(&s)),
        ).collect(),
        Err(_) => Vec::new(),
    }
}

/// What the image decoders need to know up front; everything else they read
/// from the codestream.
#[derive(Debug, Clone, Copy, PartialEq, Eq, Structural)]
pub struct ImageParams {
    pub indexed: bool,
    pub bpc: Option<u8>,
    pub components: Option<u8>,
    pub width: u32,
    pub height: u32,
}

/// How a stream is to be decoded.
#[derive(Debug, Clone, Copy, PartialEq, Eq, Structural)]
pub enum Reading {
    Plain,
    Image(ImageParams),
}

/// Whether a stream can be read so: an indexed image that gives a depth gives
/// one that samples can have. The others count as images that do not decode.
pub open spec fn decodable(r: Reading) -> bool {
    match r {
        Reading::Plain => true,
        Reading::Image(p) => match p.bpc {
            Some(b) => p.indexed ==> b == 1 || b == 2 || b == 4 || b == 8 || b == 16,
            None => true,
        },
    }
}

/// Whether a stream can be read so.
fn is_decodable(r: &Reading) -> (ok: bool)
    ensures
        ok == decodable(*r),
{
    match r {
        Reading::Plain => true,
        Reading::Image(p) => match p.bpc {
            Some(b) => !p.indexed || b == 1 || b == 2 || b == 4 || b == 8 || b == 16,
            None => true,
        },
    }
}

/// How the stream with a number is to be read, by the plan from `i` on.
pub open spec fn planned(plan: Seq<(Seq<char>, Reading)>, id: Seq<char>, i: int) -> Option<Reading>
    decreases plan.len() - i,
{
    if i < 0 || i >= plan.len() {
        None
    } else if plan[i].0 == id {
        Some(plan[i].1)
    } else {
        planned(plan, id, i + 1)
    }
}

/// How the stream with a number is to be read.
fn find_planned(plan: &Vec<(String, Reading)>, id: &String) -> (r: Option<Reading>)
    ensures
        r == planned(plan_view(plan@), id@, 0),
{
    let ghost view = plan_view(plan@);
    let mut i: usize = 0;
    while i < plan.len()
        invariant
            i <= plan@.len(),
            view == plan_view(plan@),
            planned(view, id@, 0) == planned(view, id@, i as int),
        decreases plan@.len() - i,
    {
        assert(view[i as int] == (plan@[i as int].0@, plan@[i as int].1));
        if text::is(&plan[i].0, id.as_str()) {
            return Some(plan[i].1);
        }
        i += 1;
    }
    None
}

/// What may come of decoding the streams of a file by a plan. A relation and
/// not a function: the objects come in the order in which a hash map is
/// walked.
pub uninterp spec fn may_fail(
    file: Seq<u8>,
    plan: Seq<(Seq<char>, Reading)>,
    errors: Seq<DecodedView>,
) -> bool;

/// `hayro_syntax::object::stream::Stream::decoded`, or `decoded_image`, on each
/// stream that the plan names by its number, an error by its debug text beside
/// the number. The result is what decoding may give; which streams fail is
/// left unsaid. For an indexed image the decoder of JPEG 2000 shifts a number
/// of 32 bits by the depth that is given, so that depth has to be less; where
/// none is given it takes that of the codestream, which is 31 at most.
#[verifier::external_body]
fn decode_streams(file: &Vec<u8>, plan: &Vec<(String, Reading)>) -> (r: Vec<Decoded>)
    requires
        forall|i: int| 0 <= i < plan@.len() ==> decodable((#[trigger] plan@[i]).1),
    ensures
        may_fail(file@, plan_view(plan@), errors_view(r@)),
{
    let Ok(pdf) = hayro_syntax::Pdf::new(file.clone()) else {
        return Vec::new();
    };
    pdf.objects().into_iter().map(|o| o.into_stream().map(|s| {
        let id = format!("{:?}", s.obj_id());
        let error = match find_planned(plan, &id) {
            Some(Reading::Plain) => s.decoded().err(),
            Some(Reading::Image(p)) => s.decoded_image(&ImageDecodeParams {
                is_indexed: p.indexed, bpc: p.bpc, num_components: p.components,
                width: p.width, height: p.height, ..ImageDecodeParams::default()
            }).err(),
            None => None,
        };
        (id, error.map(|e| format!("{e:?}")))
    })).collect()
}

// ------------------------------------------------------------- checking

/// The color space's family name: the name itself, or the first element of
/// an array color space such as `[/Indexed ...]` or `[/ICCBased ...]`.
pub open spec fn family_of(f: FactsView) -> Option<Seq<char>> {
    match f.space {
        Some(s) => Some(s),
        None => f.family,
    }
}

/// How many components the colors of a family have.
pub open spec fn components_of(family: Option<Seq<char>>) -> Option<u8> {
    match family {
        Some(f) => if f == "DeviceGray"@ || f == "CalGray"@ {
            Some(1)
        } else if f == "DeviceRGB"@ || f == "CalRGB"@ || f == "Lab"@ {
            Some(3)
        } else if f == "DeviceCMYK"@ {
            Some(4)
        } else {
            None
        },
        None => None,
    }
}

/// A number, or zero.
pub open spec fn or_zero(n: Option<u32>) -> u32 {
    match n {
        Some(n) => n,
        None => 0,
    }
}

/// How a stream is to be decoded: not at all where it is a cross-reference
/// stream, as an image where it says it is one.
pub open spec fn reading_of(f: FactsView) -> Option<Reading> {
    if f.kind == Some("XRef"@) {
        None
    } else if f.subtype == Some("Image"@) {
        Some(
            Reading::Image(
                ImageParams {
                    indexed: family_of(f) == Some("Indexed"@),
                    bpc: f.bpc,
                    components: components_of(family_of(f)),
                    width: or_zero(f.width),
                    height: or_zero(f.height),
                },
            ),
        )
    } else {
        Some(Reading::Plain)
    }
}

/// What is to be decoded of the first `n` objects, with the objects' numbers:
/// the streams that can be read as they say.
pub open spec fn plan_of(objects: Seq<Option<FactsView>>, n: int) -> Seq<(Seq<char>, Reading)>
    decreases n,
{
    if n <= 0 || n > objects.len() {
        Seq::empty()
    } else {
        let front = plan_of(objects, n - 1);
        match objects[n - 1] {
            Some(f) => match reading_of(f) {
                Some(r) => if decodable(r) {
                    front.push((f.id, r))
                } else {
                    front
                },
                None => front,
            },
            None => front,
        }
    }
}

/// What the first `n` pages add to what was found.
pub open spec fn pages_checked(
    problems: Seq<Seq<char>>,
    pages: Seq<(bool, bool)>,
    n: int,
) -> Seq<Seq<char>>
    decreases n,
{
    if n <= 0 || n > pages.len() {
        problems
    } else {
        let front = pages_checked(problems, pages, n - 1);
        if pages[n - 1].0 && !pages[n - 1].1 {
            noted(front, "page "@ + text::number(n as nat) + ": content stream does not decode"@)
        } else {
            front
        }
    }
}

/// What is found of the pages.
pub open spec fn page_problems(pages: Seq<(bool, bool)>, expected: int) -> Seq<Seq<char>> {
    let count = if pages.len() != expected {
        noted(
            Seq::empty(),
            "page count is "@ + text::number(pages.len()) + " but the input had "@ + text::number(
                expected as nat,
            ),
        )
    } else {
        Seq::empty()
    };
    pages_checked(count, pages, pages.len() as int)
}

/// What went wrong with the stream with a number, by what was found from `i`
/// on.
pub open spec fn error_of(errors: Seq<DecodedView>, id: Seq<char>, i: int) -> Option<Seq<char>>
    decreases errors.len() - i,
{
    if i < 0 || i >= errors.len() {
        None
    } else {
        match errors[i] {
            Some((n, e)) => if n == id {
                e
            } else {
                error_of(errors, id, i + 1)
            },
            None => error_of(errors, id, i + 1),
        }
    }
}

/// What went wrong with a stream, if it was to be decoded.
pub open spec fn failure(f: FactsView, errors: Seq<DecodedView>) -> Option<Seq<char>> {
    match reading_of(f) {
        Some(r) => if decodable(r) {
            error_of(errors, f.id, 0)
        } else {
            Some("ImageDecode"@)
        },
        None => None,
    }
}

/// What the first `n` objects add to what was found.
pub open spec fn streams_checked(
    problems: Seq<Seq<char>>,
    objects: Seq<Option<FactsView>>,
    errors: Seq<DecodedView>,
    n: int,
) -> Seq<Seq<char>>
    decreases n,
{
    if n <= 0 || n > objects.len() {
        problems
    } else {
        let front = streams_checked(problems, objects, errors, n - 1);
        match objects[n - 1] {
            Some(f) => match failure(f, errors) {
                Some(e) => noted(
                    front,
                    "object "@ + f.id + ": stream does not decode ("@ + e + ")"@,
                ),
                None => front,
            },
            None => front,
        }
    }
}

/// How many of the first `n` objects are decoded.
pub open spec fn decoded_count(objects: Seq<Option<FactsView>>, n: int) -> int
    decreases n,
{
    if n <= 0 || n > objects.len() {
        0
    } else {
        decoded_count(objects, n - 1) + match objects[n - 1] {
            Some(f) => if reading_of(f) is Some {
                1int
            } else {
                0
            },
            None => 0,
        }
    }
}

/// What a check finds, from what the reader finds.
pub open spec fn checked(
    pages: Seq<(bool, bool)>,
    objects: Seq<Option<FactsView>>,
    errors: Seq<DecodedView>,
    expected: int,
) -> VerificationView {
    VerificationView {
        pages: pages.len() as int,
        objects: objects.len() as int,
        streams_checked: decoded_count(objects, objects.len() as int),
        problems: streams_checked(
            page_problems(pages, expected),
            objects,
            errors,
            objects.len() as int,
        ),
    }
}

/// What a check finds of a file that does not load.
pub open spec fn unreadable(e: Seq<char>) -> VerificationView {
    VerificationView {
        pages: 0,
        objects: 0,
        streams_checked: 0,
        problems: noted(Seq::empty(), "output does not parse: "@ + e),
    }
}

fn is_text(s: &Option<String>, name: &str) -> (r: bool)
    ensures
        r == (text_view(*s) == Some(name@)),
{
    match s {
        Some(s) => text::is(s, name),
        None => false,
    }
}

fn count_components(family: &Option<String>) -> (r: Option<u8>)
    ensures
        r == components_of(text_view(*family)),
{
    if is_text(family, "DeviceGray") || is_text(family, "CalGray") {
        Some(1)
    } else if is_text(family, "DeviceRGB") || is_text(family, "CalRGB") || is_text(family, "Lab") {
        Some(3)
    } else if is_text(family, "DeviceCMYK") {
        Some(4)
    } else {
        None
    }
}

/// How a stream is to be decoded.
pub fn find_reading(f: &StreamFacts) -> (r: Option<Reading>)
    ensures
        r == reading_of(f@),
{
    if is_text(&f.kind, "XRef") {
        return None;
    }
    if !is_text(&f.subtype, "Image") {
        return Some(Reading::Plain);
    }
    let family = match &f.space {
        Some(_) => &f.space,
        None => &f.family,
    };
    Some(
        Reading::Image(
            ImageParams {
                indexed: is_text(family, "Indexed"),
                bpc: f.bpc,
                components: count_components(family),
                width: match f.width {
                    Some(n) => n,
                    None => 0,
                },
                height: match f.height {
                    Some(n) => n,
                    None => 0,
                },
            },
        ),
    )
}

/// What is to be decoded of the objects: the streams that can be read as they
/// say.
pub fn find_plan(objects: &Vec<Option<StreamFacts>>) -> (r: Vec<(String, Reading)>)
    ensures
        plan_view(r@) == plan_of(facts_view(objects@), objects@.len() as int),
        forall|i: int| 0 <= i < r@.len() ==> decodable((#[trigger] r@[i]).1),
{
    let ghost view = facts_view(objects@);
    let mut out: Vec<(String, Reading)> = Vec::new();
    let mut i: usize = 0;
    assert(plan_view(out@) =~= plan_of(view, 0));
    while i < objects.len()
        invariant
            i <= objects@.len(),
            view == facts_view(objects@),
            plan_view(out@) == plan_of(view, i as int),
            forall|j: int| 0 <= j < out@.len() ==> decodable((#[trigger] out@[j]).1),
        decreases objects@.len() - i,
    {
        let ghost before = plan_view(out@);
        if let Some(f) = &objects[i] {
            assert(view[i as int] == Some(f@));
            if let Some(reading) = find_reading(f) {
                if is_decodable(&reading) {
                    out.push((f.id.as_str().to_owned(), reading));
                    assert(plan_view(out@) =~= before.push((f@.id, reading)));
                }
            }
        }
        i += 1;
    }
    out
}

/// What went wrong with the stream with a number.
fn find_error<'a>(errors: &'a Vec<Decoded>, id: &String) -> (r: Option<&'a String>)
    ensures
        match r {
            Some(e) => error_of(errors_view(errors@), id@, 0) == Some(e@),
            None => error_of(errors_view(errors@), id@, 0) is None,
        },
{
    let ghost view = errors_view(errors@);
    let mut i: usize = 0;
    while i < errors.len()
        invariant
            i <= errors@.len(),
            view == errors_view(errors@),
            error_of(view, id@, 0) == error_of(view, id@, i as int),
        decreases errors@.len() - i,
    {
        assert(view[i as int] == decoded_view(errors@[i as int]));
        if let Some((n, e)) = &errors[i] {
            if text::is(n, id.as_str()) {
                return match e {
                    Some(e) => Some(e),
                    None => None,
                };
            }
        }
        i += 1;
    }
    None
}

fn check_pages(v: &mut Verification, pages: &Vec<(bool, bool)>, expected: usize)
    requires
        old(v)@.problems.len() == 0,
    ensures
        final(v)@ == (VerificationView {
            pages: pages@.len() as int,
            problems: page_problems(pages@, expected as int),
            ..old(v)@
        }),
{
    let ghost before = v@;
    assert(before.problems =~= Seq::empty());
    v.pages = pages.len();
    if pages.len() != expected {
        let mut why = "page count is ".to_owned();
        why.append(text::of_number(pages.len() as u128).as_str());
        why.append(" but the input had ");
        why.append(text::of_number(expected as u128).as_str());
        v.problem(why);
    }
    let ghost start = v@;
    let mut i: usize = 0;
    while i < pages.len()
        invariant
            i <= pages@.len(),
            v@ == (VerificationView {
                problems: pages_checked(start.problems, pages@, i as int),
                ..start
            }),
        decreases pages@.len() - i,
    {
        let (has, decodes) = pages[i];
        i += 1;
        if has && !decodes {
            let mut why = "page ".to_owned();
            why.append(text::of_number(i as u128).as_str());
            why.append(": content stream does not decode");
            v.problem(why);
        }
    }
}

fn check_streams(
    v: &mut Verification,
    objects: &Vec<Option<StreamFacts>>,
    errors: &Vec<Decoded>,
)
    requires
        old(v)@.objects == 0,
        old(v)@.streams_checked == 0,
    ensures
        final(v)@ == (VerificationView {
            objects: objects@.len() as int,
            streams_checked: decoded_count(facts_view(objects@), objects@.len() as int),
            problems: streams_checked(
                old(v)@.problems,
                facts_view(objects@),
                errors_view(errors@),
                objects@.len() as int,
            ),
            ..old(v)@
        }),
{
    let ghost start = v@;
    let ghost facts = facts_view(objects@);
    let ghost bad = errors_view(errors@);
    let mut i: usize = 0;
    v.objects = objects.len();
    while i < objects.len()
        invariant
            i <= objects@.len(),
            facts == facts_view(objects@),
            bad == errors_view(errors@),
            v.streams_checked <= i,
            v@ == (VerificationView {
                objects: objects@.len() as int,
                streams_checked: decoded_count(facts, i as int),
                problems: streams_checked(start.problems, facts, bad, i as int),
                ..start
            }),
        decreases objects@.len() - i,
    {
        if let Some(f) = &objects[i] {
            assert(facts[i as int] == Some(f@));
            if let Some(reading) = find_reading(f) {
                v.streams_checked += 1;
                let error: Option<&str> = if is_decodable(&reading) {
                    match find_error(errors, &f.id) {
                        Some(e) => Some(e.as_str()),
                        None => None,
                    }
                } else {
                    Some("ImageDecode")
                };
                if let Some(e) = error {
                    let mut why = "object ".to_owned();
                    why.append(f.id.as_str());
                    why.append(": stream does not decode (");
                    why.append(e);
                    why.append(")");
                    v.problem(why);
                }
            }
        }
        i += 1;
    }
}

/// What a check finds, from what the reader finds.
pub fn check(
    pages: &Result<Vec<(bool, bool)>, String>,
    objects: &Vec<Option<StreamFacts>>,
    errors: &Vec<Decoded>,
    expected: usize,
) -> (r: Verification)
    ensures
        r@ == (match pages_view(*pages) {
            Ok(p) => checked(p, facts_view(objects@), errors_view(errors@), expected as int),
            Err(e) => unreadable(e),
        }),
{
    let mut v = Verification::new();
    match pages {
        Ok(p) => {
            check_pages(&mut v, p, expected);
            check_streams(&mut v, objects, errors);
        },
        Err(e) => {
            let mut why = "output does not parse: ".to_owned();
            why.append(e.as_str());
            v.problem(why);
        },
    }
    v
}

/// Whether a check of a file can come out as `v`.
pub open spec fn may_find(file: Seq<u8>, expected: int, v: VerificationView) -> bool {
    exists|pages: Result<Seq<(bool, bool)>, Seq<char>>| #[trigger]
        may_read(file, pages) && match pages {
            Ok(p) => exists|objects: Seq<Option<FactsView>>, errors: Seq<DecodedView>|
                may_list(file, objects) && may_fail(
                    file,
                    plan_of(objects, objects.len() as int),
                    errors,
                ) && v
                    == #[trigger] checked(p, objects, errors, expected),
            Err(e) => v == unreadable(e),
        }
}

/// Check `output` as an independent reader would see it. `expected_pages`
/// is the input's page count.
pub fn verify(output: &Vec<u8>, expected_pages: usize) -> (r: Verification)
    ensures
        may_find(output@, expected_pages as int, r@),
{
    let pages = read_pages(output);
    let objects = read_objects(output);
    let plan = find_plan(&objects);
    let errors = decode_streams(output, &plan);
    assert(may_read(output@, pages_view(pages)));
    check(&pages, &objects, &errors, expected_pages)
}

// ------------------------------------------------------------- laws

/// A check never reports more problems than the cap.
pub proof fn problems_are_capped(
    pages: Seq<(bool, bool)>,
    objects: Seq<Option<FactsView>>,
    errors: Seq<DecodedView>,
    expected: int,
)
    ensures
        checked(pages, objects, errors, expected).problems.len() <= MAX_PROBLEMS,
{
    lemma_pages_capped(pages, expected, pages.len() as int);
    lemma_streams_capped(
        page_problems(pages, expected),
        objects,
        errors,
        objects.len() as int,
    );
}

proof fn lemma_pages_capped(pages: Seq<(bool, bool)>, expected: int, n: int)
    requires
        0 <= n <= pages.len(),
    ensures
        forall|p: Seq<Seq<char>>|
            p.len() <= MAX_PROBLEMS ==> (#[trigger] pages_checked(p, pages, n)).len()
                <= MAX_PROBLEMS,
    decreases n,
{
    if n > 0 {
        lemma_pages_capped(pages, expected, n - 1);
        assert forall|p: Seq<Seq<char>>| p.len() <= MAX_PROBLEMS implies (#[trigger] pages_checked(
            p,
            pages,
            n,
        )).len() <= MAX_PROBLEMS by {
            assert(pages_checked(p, pages, n - 1).len() <= MAX_PROBLEMS);
        }
    }
}

proof fn lemma_streams_capped(
    problems: Seq<Seq<char>>,
    objects: Seq<Option<FactsView>>,
    errors: Seq<DecodedView>,
    n: int,
)
    requires
        problems.len() <= MAX_PROBLEMS,
    ensures
        streams_checked(problems, objects, errors, n).len() <= MAX_PROBLEMS,
    decreases n,
{
    if 0 < n <= objects.len() {
        lemma_streams_capped(problems, objects, errors, n - 1);
    }
}

proof fn lemma_regressed(
    v: VerificationView,
    baseline: VerificationView,
    categories: Seq<Category>,
    n: int,
)
    requires
        forall|c: Category| #[trigger] total_of(v, c) <= total_of(baseline, c),
    ensures
        regressed(v, baseline, categories, n).len() == 0,
    decreases n,
{
    if 0 < n <= categories.len() {
        lemma_regressed(v, baseline, categories, n - 1);
        assert(total_of(v, categories[n - 1]) <= total_of(baseline, categories[n - 1]));
    }
}

/// Against itself nothing is a regression: problems that an input already had
/// do not count against its output.
pub proof fn nothing_regresses_from_itself(v: VerificationView)
    ensures
        regressions(v, v) == Seq::<(Category, usize, usize)>::empty(),
{
    let categories = categories_of(v.problems, v.problems.len() as int);
    lemma_regressed(v, v, categories, categories.len() as int);
}

/// What tells the names of color spaces apart.
proof fn lemma_family_names()
    ensures
        "DeviceGray"@.len() == 10 && "DeviceGray"@[6] == 'G',
        "CalGray"@.len() == 7 && "CalGray"@[0] == 'C',
        "DeviceRGB"@.len() == 9,
        "CalRGB"@.len() == 6,
        "Lab"@.len() == 3,
        "DeviceCMYK"@.len() == 10 && "DeviceCMYK"@[6] == 'C',
        "Indexed"@.len() == 7 && "Indexed"@[0] == 'I',
        "XRef"@.len() == 4,
        "Image"@.len() == 5,
{
    reveal_strlit("DeviceGray");
    reveal_strlit("CalGray");
    reveal_strlit("DeviceRGB");
    reveal_strlit("CalRGB");
    reveal_strlit("Lab");
    reveal_strlit("DeviceCMYK");
    reveal_strlit("Indexed");
    reveal_strlit("XRef");
    reveal_strlit("Image");
}

/// A stream is decoded as an image just where it says that it is one, with its
/// own size and the components of its color space: one for gray, three for RGB
/// and Lab, and four for CMYK. A cross-reference stream is not decoded.
pub proof fn streams_are_read_as_they_say(f: FactsView)
    ensures
        f.kind == Some("XRef"@) <==> reading_of(f) is None,
        f.kind != Some("XRef"@) ==> (f.subtype == Some("Image"@) <==> reading_of(f) matches Some(
            Reading::Image(_),
        )),
        reading_of(f) matches Some(Reading::Image(p)) ==> {
            let family = if f.space is Some {
                f.space
            } else {
                f.family
            };
            &&& p.bpc == f.bpc
            &&& f.width matches Some(w) ==> p.width == w
            &&& f.height matches Some(h) ==> p.height == h
            &&& p.indexed <==> family == Some("Indexed"@)
            &&& p.components == Some(1u8) <==> family == Some("DeviceGray"@) || family == Some(
                "CalGray"@,
            )
            &&& p.components == Some(3u8) <==> family == Some("DeviceRGB"@) || family == Some(
                "CalRGB"@,
            ) || family == Some("Lab"@)
            &&& p.components == Some(4u8) <==> family == Some("DeviceCMYK"@)
        },
{
    lemma_family_names();
}

} // verus!
