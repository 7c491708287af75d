//! Output verification, visual level.
//!
//! Every page of the input and of the output is rasterized at a fixed low
//! resolution, converted to gray, and compared with SSIM (structural
//! similarity: means, variances and covariance over blocks, which forgives a
//! re-encoded photo's noise but not a missing image, a shifted glyph or a lost
//! page). A page under the preset's floor is a warning by default; callers may
//! make it a failure. Here is what is done with the scores; a score is held as
//! its bit pattern.
use vstd::prelude::*;
use vstd::string::StringExecFns;

use crate::config::Preset;
use crate::images::raster;
use crate::single;
use crate::single::Single;
use crate::text;

verus! {

/// Rendering resolution, in dots per inch. Low, so a full document renders in
/// seconds and the comparison judges layout and content rather than pixel
/// noise.
pub const DPI: u32 = 72;

/// SSIM a page must reach for a preset's output to count as faithful: 0.95,
/// 0.93 and 0.90, to the nearest number.
pub open spec fn floor_of(preset: Preset) -> Single {
    match preset {
        Preset::Less => Single { bits: 0x3F73_3333 },
        Preset::Standard => Single { bits: 0x3F6E_147B },
        Preset::More => Single { bits: 0x3F66_6666 },
    }
}

/// SSIM a page must reach for a preset's output to count as faithful.
/// Provisional: set from the corpus and probes, to be revisited against
/// reference outputs.
pub fn floor(preset: Preset) -> (r: Single)
    ensures
        r == floor_of(preset),
{
    match preset {
        Preset::Less => Single { bits: 0x3F73_3333 },
        Preset::Standard => Single { bits: 0x3F6E_147B },
        Preset::More => Single { bits: 0x3F66_6666 },
    }
}

/// How alike a page is before and after.
#[derive(Debug, Clone, Copy, PartialEq, Eq, Structural)]
pub struct PageScore {
    /// Zero-based page index.
    pub page: usize,
    pub ssim: Single,
}

/// How alike two documents are, page by page.
#[derive(Debug)]
pub struct Comparison {
    pub pages: Vec<PageScore>,
    pub floor: Single,
}

/// Scores page by page. A page that only one of the documents has scores zero,
/// so it shows up as a failure.
pub open spec fn scored(scores: Seq<Option<Single>>) -> Seq<PageScore> {
    Seq::new(
        scores.len(),
        |i: int|
            PageScore {
                page: i as usize,
                ssim: match scores[i] {
                    Some(s) => s,
                    None => Single { bits: 0 },
                },
            },
    )
}

/// The scores among the first `n` that are below a floor.
pub open spec fn below(pages: Seq<PageScore>, floor: Single, n: int) -> Seq<PageScore>
    decreases n,
{
    if n <= 0 || n > pages.len() {
        Seq::empty()
    } else if single::above(floor, pages[n - 1].ssim) {
        below(pages, floor, n - 1).push(pages[n - 1])
    } else {
        below(pages, floor, n - 1)
    }
}

/// The lesser of two numbers; of a number and none, the number.
pub open spec fn lesser(a: Single, b: Single) -> Single {
    if single::is_nan(a.bits) || single::above(a, b) {
        b
    } else {
        a
    }
}

/// The least score of the first `n`.
pub open spec fn least(pages: Seq<PageScore>, n: int) -> Option<Single>
    decreases n,
{
    if n <= 0 || n > pages.len() {
        None
    } else {
        match least(pages, n - 1) {
            None => Some(pages[n - 1].ssim),
            Some(a) => Some(lesser(a, pages[n - 1].ssim)),
        }
    }
}

/// The lines on the pages below the floor.
pub open spec fn score_lines(
    pages: Seq<PageScore>,
    floor: Single,
    scores: Seq<Seq<char>>,
    n: int,
) -> Seq<char>
    decreases n,
{
    if n <= 0 || n > pages.len() {
        Seq::empty()
    } else {
        let front = score_lines(pages, floor, scores, n - 1);
        if single::above(floor, pages[n - 1].ssim) {
            front + "\n  - page "@ + text::number((pages[n - 1].page + 1) as nat) + ": SSIM "@
                + scores[n - 1] + " below floor"@
        } else {
            front
        }
    }
}

/// A comparison in words.
pub open spec fn comparison_text(
    pages: Seq<PageScore>,
    floor: Single,
    least: Seq<char>,
    limit: Seq<char>,
    scores: Seq<Seq<char>>,
) -> Seq<char> {
    "render: "@ + text::number(pages.len()) + " pages compared at 72 dpi, min SSIM "@ + least
        + " (floor "@ + limit + ")"@ + score_lines(pages, floor, scores, pages.len() as int)
}

fn lesser_of(a: Single, b: Single) -> (r: Single)
    ensures
        r == lesser(a, b),
{
    if a.bits % 0x8000_0000 > 0x7f80_0000 || a.above(b) {
        b
    } else {
        a
    }
}

impl Comparison {
    /// Score every page.
    pub fn of_scores(scores: &Vec<Option<Single>>, preset: Preset) -> (r: Comparison)
        ensures
            r.pages@ == scored(scores@),
            r.floor == floor_of(preset),
    {
        let mut pages: Vec<PageScore> = Vec::new();
        let mut i: usize = 0;
        while i < scores.len()
            invariant
                i <= scores@.len(),
                pages@ == scored(scores@).take(i as int),
            decreases scores@.len() - i,
        {
            let ssim = match scores[i] {
                Some(s) => s,
                None => Single { bits: 0 },
            };
            pages.push(PageScore { page: i, ssim });
            i += 1;
            assert(pages@ =~= scored(scores@).take(i as int));
        }
        assert(pages@ =~= scored(scores@));
        Comparison { pages, floor: floor(preset) }
    }

    pub fn below_floor(&self) -> (r: Vec<PageScore>)
        ensures
            r@ == below(self.pages@, self.floor, self.pages@.len() as int),
    {
        let mut out: Vec<PageScore> = Vec::new();
        let mut i: usize = 0;
        while i < self.pages.len()
            invariant
                i <= self.pages@.len(),
                out@ == below(self.pages@, self.floor, i as int),
            decreases self.pages@.len() - i,
        {
            if self.floor.above(self.pages[i].ssim) {
                out.push(self.pages[i]);
            }
            i += 1;
        }
        out
    }

    pub fn min(&self) -> (r: Option<Single>)
        ensures
            r == least(self.pages@, self.pages@.len() as int),
    {
        let mut out: Option<Single> = None;
        let mut i: usize = 0;
        while i < self.pages.len()
            invariant
                i <= self.pages@.len(),
                out == least(self.pages@, i as int),
            decreases self.pages@.len() - i,
        {
            let s = self.pages[i].ssim;
            out = match out {
                None => Some(s),
                Some(a) => Some(lesser_of(a, s)),
            };
            i += 1;
        }
        out
    }

    /// The comparison in words. The numbers come as texts: the least score, the
    /// floor, and each page's score.
    pub fn to_text(&self, least: &str, limit: &str, scores: &Vec<String>) -> (r: String)
        requires
            scores@.len() == self.pages@.len(),
            forall|i: int|
                0 <= i < self.pages@.len() ==> (#[trigger] self.pages@[i]).page < usize::MAX,
        ensures
            r@ == comparison_text(
                self.pages@,
                self.floor,
                least@,
                limit@,
                scores@.map_values(|s: String| s@),
            ),
    {
        let ghost view = scores@.map_values(|s: String| s@);
        let mut out = "render: ".to_owned();
        text::push_number(&mut out, self.pages.len() as u128);
        out.append(" pages compared at 72 dpi, min SSIM ");
        out.append(least);
        out.append(" (floor ");
        out.append(limit);
        out.append(")");
        let ghost head = out@;
        let mut i: usize = 0;
        assert(out@ =~= head + score_lines(self.pages@, self.floor, view, 0));
        while i < self.pages.len()
            invariant
                i <= self.pages@.len(),
                scores@.len() == self.pages@.len(),
                view == scores@.map_values(|s: String| s@),
                forall|k: int|
                    0 <= k < self.pages@.len() ==> (#[trigger] self.pages@[k]).page < usize::MAX,
                out@ == head + score_lines(self.pages@, self.floor, view, i as int),
            decreases self.pages@.len() - i,
        {
            let p = self.pages[i];
            assert(self.pages@[i as int].page < usize::MAX);
            if self.floor.above(p.ssim) {
                out.append("\n  - page ");
                text::push_number(&mut out, p.page as u128 + 1);
                out.append(": SSIM ");
                out.append(scores[i].as_str());
                out.append(" below floor");
                assert(view[i as int] == scores@[i as int]@);
            }
            i += 1;
            assert(out@ =~= head + score_lines(self.pages@, self.floor, view, i as int));
        }
        out
    }
}

// ------------------------------------------------------------- pixels

/// A page in shades of gray.
#[derive(Debug, PartialEq, Eq)]
pub struct Gray {
    pub width: usize,
    pub height: usize,
    pub data: Vec<u8>,
}

/// The lightness of a color.
pub open spec fn luma(r: u8, g: u8, b: u8) -> u8 {
    ((r * 299 + g * 587 + b * 114) / 1000) as u8
}

/// Pixels of four bytes each as shades of gray. The last byte of a pixel is
/// its alpha, which is full after the background fill.
pub fn to_gray(pixels: &Vec<u8>) -> (r: Vec<u8>)
    ensures
        r@ == Seq::new(
            pixels@.len() / 4,
            |i: int| luma(pixels@[4 * i], pixels@[4 * i + 1], pixels@[4 * i + 2]),
        ),
{
    let ghost goal = Seq::new(
        pixels@.len() / 4,
        |i: int| luma(pixels@[4 * i], pixels@[4 * i + 1], pixels@[4 * i + 2]),
    );
    let len: usize = pixels.len();
    let n: usize = len / 4;
    let mut out: Vec<u8> = Vec::new();
    let mut i: usize = 0;
    while i < n
        invariant
            i <= n == len / 4,
            len == pixels@.len(),
            goal == Seq::new(
                pixels@.len() / 4,
                |i: int| luma(pixels@[4 * i], pixels@[4 * i + 1], pixels@[4 * i + 2]),
            ),
            out@ == goal.take(i as int),
        decreases n - i,
    {
        let r = pixels[4 * i] as u32;
        let g = pixels[4 * i + 1] as u32;
        let b = pixels[4 * i + 2] as u32;
        out.push(((r * 299 + g * 587 + b * 114) / 1000) as u8);
        i += 1;
        assert(out@ =~= goal.take(i as int));
    }
    assert(out@ =~= goal);
    out
}

/// The mean of the two by two pixels from a place on.
pub open spec fn mean(data: Seq<u8>, width: int, x: int, y: int) -> u8 {
    ((data[2 * y * width + 2 * x] + data[2 * y * width + 2 * x + 1] + data[(2 * y + 1) * width + 2
        * x] + data[(2 * y + 1) * width + 2 * x + 1]) / 4) as u8
}

/// A page at half its size, every pixel the mean of four.
pub open spec fn halved(width: int, height: int, data: Seq<u8>) -> Seq<u8> {
    Seq::new(
        ((width / 2) * (height / 2)) as nat,
        |i: int| mean(data, width, i % (width / 2), i / (width / 2)),
    )
}

/// A page at half its size: a re-encoded or downsampled image lands on a
/// different pixel grid when rasterized, and the averaging keeps that from
/// reading as a structural change while a missing or shifted element still
/// does.
pub fn halve(g: &Gray) -> (r: Gray)
    requires
        g.data@.len() == g.width * g.height,
    ensures
        r.width == g.width / 2,
        r.height == g.height / 2,
        r.data@ == halved(g.width as int, g.height as int, g.data@),
{
    let len: usize = g.data.len();
    let (w, h): (usize, usize) = (g.width / 2, g.height / 2);
    let ghost width = g.width as int;
    let ghost goal = halved(g.width as int, g.height as int, g.data@);
    let mut data: Vec<u8> = Vec::new();
    let mut y: usize = 0;
    assert(0 * w == 0);
    while y < h
        invariant
            y <= h,
            w == g.width / 2,
            h == g.height / 2,
            width == g.width,
            len == g.data@.len() == g.width * g.height,
            goal == halved(width, g.height as int, g.data@),
            data@ == goal.take(y * w),
        decreases h - y,
    {
        let mut x: usize = 0;
        while x < w
            invariant
                x <= w,
                y < h,
                w == g.width / 2,
                h == g.height / 2,
                width == g.width,
                len == g.data@.len() == g.width * g.height,
                goal == halved(width, g.height as int, g.data@),
                data@ == goal.take(y * w + x),
            decreases w - x,
        {
            proof {
                raster::lemma_within(2 * y, 2 * x, width, g.height as int);
                raster::lemma_within(2 * y, 2 * x + 1, width, g.height as int);
                raster::lemma_within(2 * y + 1, 2 * x, width, g.height as int);
                raster::lemma_within(2 * y + 1, 2 * x + 1, width, g.height as int);
                raster::lemma_within(y as int, x as int, w as int, h as int);
                raster::lemma_place(y as int, x as int, w as int);
                assert(g.width * g.height == width * g.height);
                assert(0 <= 2 * y * width <= (2 * y + 1) * width) by (nonlinear_arith)
                    requires
                        y >= 0,
                        width >= 0,
                ;
            }
            let top: usize = 2 * y * g.width;
            let low: usize = (2 * y + 1) * g.width;
            let a = g.data[top + 2 * x] as u32;
            let b = g.data[top + 2 * x + 1] as u32;
            let c = g.data[low + 2 * x] as u32;
            let d = g.data[low + 2 * x + 1] as u32;
            data.push(((a + b + c + d) / 4) as u8);
            assert(goal[y * w + x] == data@[y * w + x]);
            x += 1;
            assert(data@ =~= goal.take(y * w + x));
        }
        assert(y * w + w == (y + 1) * w) by (nonlinear_arith);
        y += 1;
    }
    assert(h * w == w * h) by (nonlinear_arith);
    assert(data@ =~= goal);
    Gray { width: w, height: h, data }
}

// ------------------------------------------------------------- laws

/// The lightness of a gray is the gray, and of three equal shares green counts
/// most and blue least: 587, 299 and 114 thousandths.
pub proof fn lightness_weighs_the_colors(r: u8, g: u8, b: u8)
    ensures
        luma(r, r, r) == r,
        1000 * luma(r, g, b) <= 299 * r + 587 * g + 114 * b < 1000 * luma(r, g, b) + 1000,
{
}

/// A floor is the number next to its hundredths: 95, 93 and 90 of them.
pub proof fn floors_are_next_to_their_hundredths()
    ensures
        is_next_to(floor_of(Preset::Less), 95),
        is_next_to(floor_of(Preset::Standard), 93),
        is_next_to(floor_of(Preset::More), 90),
{
}

/// Whether a number of one half up to one is the nearest to so many
/// hundredths: a fraction of twenty-four bits.
pub open spec fn is_next_to(s: Single, hundredths: int) -> bool {
    let fraction = s.bits % 0x80_0000 + 0x80_0000;
    &&& s.bits / 0x80_0000 == 126
    &&& -50 <= 100 * fraction - hundredths * 0x100_0000 <= 50
}

/// A pixel of a halved page is the mean of the four that it covers, to the
/// whole below.
pub proof fn halving_takes_means(width: int, height: int, data: Seq<u8>, x: int, y: int)
    requires
        0 <= x < width / 2,
        0 <= y < height / 2,
        data.len() == width * height,
    ensures
        ({
            let four = data[2 * y * width + 2 * x] + data[2 * y * width + (2 * x + 1)] + data[(2 * y
                + 1) * width + 2 * x] + data[(2 * y + 1) * width + (2 * x + 1)];
            let m = halved(width, height, data)[y * (width / 2) + x];
            4 * m <= four < 4 * m + 4
        }),
{
    let half = width / 2;
    raster::lemma_place(y, x, half);
    raster::lemma_within(y, x, half, height / 2);
    assert(halved(width, height, data)[y * half + x] == mean(data, width, x, y));
}

/// The pages below a floor are listed, each once and in order, and no others.
pub proof fn pages_below_are_listed(pages: Seq<PageScore>, floor: Single, n: int, p: PageScore)
    requires
        0 <= n <= pages.len(),
    ensures
        below(pages, floor, n).contains(p) <==> exists|i: int|
            0 <= i < n && #[trigger] pages[i] == p && single::above(floor, p.ssim),
        below(pages, floor, n).len() <= n,
    decreases n,
{
    if n > 0 {
        pages_below_are_listed(pages, floor, n - 1, p);
        let front = below(pages, floor, n - 1);
        let all = below(pages, floor, n);
        if single::above(floor, pages[n - 1].ssim) {
            assert(all[front.len() as int] == pages[n - 1]);
            if front.contains(p) {
                let k = choose|k: int| 0 <= k < front.len() && front[k] == p;
                assert(all[k] == p);
            }
            if all.contains(p) {
                let k = choose|k: int| 0 <= k < all.len() && all[k] == p;
                if k < front.len() {
                    assert(front[k] == p);
                }
            }
        }
    }
}

} // verus!
