//! In-memory image representation shared by decode, transform and encode.
use vstd::arithmetic::div_mod;
use vstd::prelude::*;

use crate::bytes;

verus! {

/// Sample layout of a [`Raster`]. Everything except `Gray1` is 8 bits per
/// sample, interleaved, row-major, no padding. `Gray1` is packed one bit
/// per pixel, rows padded to a byte, 1 = white unless the image is a
/// stencil mask (where 1 = masked out), exactly as PDF stores it.
#[derive(Debug, Clone, Copy, PartialEq, Eq, Structural)]
pub enum Format {
    Gray1,
    Gray8,
    Rgb8,
    Cmyk8,
    /// 8-bit palette indices; the palette stays in the PDF dictionary.
    Indexed8,
}

impl Format {
    /// How many samples a pixel has.
    pub open spec fn samples(self) -> int {
        match self {
            Format::Gray1 | Format::Gray8 | Format::Indexed8 => 1,
            Format::Rgb8 => 3,
            Format::Cmyk8 => 4,
        }
    }

    /// How many bytes a row of pixels takes.
    pub open spec fn row_len(self, width: int) -> int {
        match self {
            Format::Gray1 => (width + 7) / 8,
            _ => width * self.samples(),
        }
    }

    pub fn samples_per_pixel(self) -> (r: usize)
        ensures
            r == self.samples(),
            1 <= r <= 4,
    {
        match self {
            Format::Gray1 | Format::Gray8 | Format::Indexed8 => 1,
            Format::Rgb8 => 3,
            Format::Cmyk8 => 4,
        }
    }

    pub fn bits_per_component(self) -> (r: u8)
        ensures
            r == if self == Format::Gray1 {
                1u8
            } else {
                8u8
            },
    {
        if self == Format::Gray1 {
            1
        } else {
            8
        }
    }

    pub fn row_bytes(self, width: u32) -> (r: usize)
        requires
            self.row_len(width as int) <= usize::MAX,
        ensures
            r == self.row_len(width as int),
    {
        match self {
            Format::Gray1 => ((width as u64 + 7) / 8) as usize,
            _ => width as usize * self.samples_per_pixel(),
        }
    }
}

/// An image: its size, its layout and its rows.
#[derive(Debug, PartialEq, Eq)]
pub struct Raster {
    pub width: u32,
    pub height: u32,
    pub format: Format,
    pub data: Vec<u8>,
}

/// What an image holds.
pub struct RasterView {
    pub width: int,
    pub height: int,
    pub format: Format,
    pub data: Seq<u8>,
}

impl View for Raster {
    type V = RasterView;

    open spec fn view(&self) -> RasterView {
        RasterView {
            width: self.width as int,
            height: self.height as int,
            format: self.format,
            data: self.data@,
        }
    }
}

impl RasterView {
    /// The data are as long as the size and the layout ask for, and there is
    /// at least one pixel.
    pub open spec fn whole(self) -> bool {
        &&& self.width > 0
        &&& self.height > 0
        &&& self.data.len() == self.format.row_len(self.width) * self.height
    }
}

// ------------------------------------------------------------- bits

/// The weight of a bit of a byte, counted from the highest.
pub open spec fn weight(k: int) -> int {
    if k == 0 {
        128
    } else if k == 1 {
        64
    } else if k == 2 {
        32
    } else if k == 3 {
        16
    } else if k == 4 {
        8
    } else if k == 5 {
        4
    } else if k == 6 {
        2
    } else {
        1
    }
}

/// A bit of a byte, counted from the highest.
pub open spec fn bit(b: u8, k: int) -> bool {
    b as int / weight(k) % 2 == 1
}

fn weight_of(k: usize) -> (r: u8)
    requires
        k < 8,
    ensures
        r == weight(k as int),
{
    if k == 0 {
        128
    } else if k == 1 {
        64
    } else if k == 2 {
        32
    } else if k == 3 {
        16
    } else if k == 4 {
        8
    } else if k == 5 {
        4
    } else if k == 6 {
        2
    } else {
        1
    }
}

/// A bit of a byte, counted from the highest.
pub fn get_bit(b: u8, k: usize) -> (r: bool)
    requires
        k < 8,
    ensures
        r == bit(b, k as int),
{
    b / weight_of(k) % 2 == 1
}

/// The byte whose bits say which of eight flags are set.
pub open spec fn byte_of(on: spec_fn(int) -> bool) -> u8 {
    ((if on(0) {
        128int
    } else {
        0
    }) + (if on(1) {
        64int
    } else {
        0
    }) + (if on(2) {
        32int
    } else {
        0
    }) + (if on(3) {
        16int
    } else {
        0
    }) + (if on(4) {
        8int
    } else {
        0
    }) + (if on(5) {
        4int
    } else {
        0
    }) + (if on(6) {
        2int
    } else {
        0
    }) + (if on(7) {
        1int
    } else {
        0
    })) as u8
}

/// The bits of a byte of flags are the flags.
pub proof fn lemma_byte_of(on: spec_fn(int) -> bool, k: int)
    requires
        0 <= k < 8,
    ensures
        bit(byte_of(on), k) == on(k),
{
    if k == 0 {
    } else if k == 1 {
    } else if k == 2 {
    } else if k == 3 {
    } else if k == 4 {
    } else if k == 5 {
    } else if k == 6 {
    }
}

/// A byte is the sum of the weights of its bits.
proof fn lemma_sum_of_bits(a: u8)
    ensures
        a == byte_of(|k: int| bit(a, k)),
{
    assert(a == 128 * (a / 128 % 2) + 64 * (a / 64 % 2) + 32 * (a / 32 % 2) + 16 * (a / 16 % 2) + 8
        * (a / 8 % 2) + 4 * (a / 4 % 2) + 2 * (a / 2 % 2) + a % 2) by (bit_vector);
}

/// Two bytes with the same bits are the same.
pub proof fn lemma_same_bits(a: u8, b: u8)
    requires
        forall|k: int| 0 <= k < 8 ==> #[trigger] bit(a, k) == bit(b, k),
    ensures
        a == b,
{
    lemma_sum_of_bits(a);
    lemma_sum_of_bits(b);
    let f = |k: int| bit(a, k);
    let g = |k: int| bit(b, k);
    assert(f(0) == g(0) && f(1) == g(1) && f(2) == g(2) && f(3) == g(3) && f(4) == g(4) && f(5)
        == g(5) && f(6) == g(6) && f(7) == g(7));
    assert(byte_of(f) == byte_of(g));
}

// ------------------------------------------------------------- rows

/// Where a column of a row stands.
pub proof fn lemma_place(row: int, column: int, width: int)
    requires
        0 <= column < width,
        0 <= row,
    ensures
        (row * width + column) / width == row,
        (row * width + column) % width == column,
        0 <= row * width + column,
{
    div_mod::lemma_fundamental_div_mod_converse(row * width + column, width, row, column);
    assert(row * width >= 0) by (nonlinear_arith)
        requires
            row >= 0,
            width > 0,
    ;
}

/// A column of one of the rows stands within them all.
pub proof fn lemma_within(row: int, column: int, width: int, height: int)
    requires
        0 <= column < width,
        0 <= row < height,
    ensures
        0 <= row * width + column < width * height,
        row * width <= width * height - width,
{
    assert(0 <= row * width && row * width <= width * height - width) by (nonlinear_arith)
        requires
            0 <= row < height,
            width > 0,
    ;
}

/// A place among rows has a row and a column.
pub proof fn lemma_row_of(place: int, width: int, height: int)
    requires
        width > 0,
        0 <= place < width * height,
    ensures
        0 <= place / width < height,
        0 <= place % width < width,
        place == (place / width) * width + place % width,
{
    assert(place == (place / width) * width + place % width && 0 <= place % width < width && 0
        <= place / width && place / width < height) by (nonlinear_arith)
        requires
            width > 0,
            0 <= place < width * height,
    ;
}

// ------------------------------------------------------------- packing

/// The bit of a pixel in packed rows.
pub open spec fn pixel_bit(width: int, data: Seq<u8>, row: int, column: int) -> bool {
    bit(data[row * ((width + 7) / 8) + column / 8], column % 8)
}

/// Packed rows with a byte per pixel: white for a set bit, black for a clear
/// one.
pub open spec fn unpacked(width: int, height: int, data: Seq<u8>) -> Seq<u8> {
    Seq::new(
        (width * height) as nat,
        |i: int|
            if pixel_bit(width, data, i / width, i % width) {
                255u8
            } else {
                0u8
            },
    )
}

/// Whether a column is one of a row's pixels and at least mid-gray.
pub open spec fn light(width: int, data: Seq<u8>, row: int, column: int) -> bool {
    column < width && data[row * width + column] >= 128
}

/// The byte that packs eight pixels of a row.
pub open spec fn packed_byte(width: int, data: Seq<u8>, row: int, column: int) -> u8 {
    byte_of(|k: int| light(width, data, row, column * 8 + k))
}

/// Rows of a byte per pixel packed to a bit per pixel, by whether the pixel
/// is at least mid-gray; the rest of a row's last byte is clear.
pub open spec fn packed(width: int, height: int, data: Seq<u8>) -> Seq<u8> {
    let stride = (width + 7) / 8;
    Seq::new(
        (stride * height) as nat,
        |j: int| packed_byte(width, data, j / stride, j % stride),
    )
}

/// The image with a byte per pixel.
pub open spec fn as_gray8(r: RasterView) -> RasterView {
    RasterView {
        width: r.width,
        height: r.height,
        format: Format::Gray8,
        data: unpacked(r.width, r.height, r.data),
    }
}

/// The image with a bit per pixel.
pub open spec fn as_gray1(r: RasterView) -> RasterView {
    RasterView {
        width: r.width,
        height: r.height,
        format: Format::Gray1,
        data: packed(r.width, r.height, r.data),
    }
}

impl Raster {
    /// The data fit the size and the layout.
    pub open spec fn wf(self) -> bool {
        self@.whole()
    }

    /// An image of these data; `None` where they do not fit the size.
    pub fn new(width: u32, height: u32, format: Format, data: Vec<u8>) -> (r: Option<Raster>)
        ensures
            ({
                let image = RasterView {
                    width: width as int,
                    height: height as int,
                    format,
                    data: data@,
                };
                match r {
                    Some(raster) => image.whole() && raster@ == image,
                    None => !image.whole(),
                }
            }),
    {
        let n: u64 = format.samples_per_pixel() as u64;
        assert(width as int * n as int <= 0x4_0000_0000) by (nonlinear_arith)
            requires
                0 <= width <= 0xFFFF_FFFF,
                1 <= n <= 4,
        ;
        let row: u64 = match format {
            Format::Gray1 => (width as u64 + 7) / 8,
            _ => width as u64 * n,
        };
        assert(row as int * height as int <= 0x4_0000_0000 * 0xFFFF_FFFF) by (nonlinear_arith)
            requires
                0 <= row <= 0x4_0000_0000,
                0 <= height <= 0xFFFF_FFFF,
        ;
        let expected: u128 = row as u128 * height as u128;
        if data.len() as u128 == expected && width > 0 && height > 0 {
            Some(Raster { width, height, format, data })
        } else {
            None
        }
    }

    /// A copy of the image.
    pub fn copied(&self) -> (r: Raster)
        ensures
            r@ == self@,
    {
        Raster {
            width: self.width,
            height: self.height,
            format: self.format,
            data: bytes::copy(&self.data),
        }
    }

    /// Unpacked 8-bit gray from a packed 1-bit image (1 -> 255).
    pub fn gray1_to_gray8(&self) -> (r: Raster)
        requires
            self.wf(),
            self.format == Format::Gray1,
        ensures
            r@ == as_gray8(self@),
            r.wf(),
    {
        let ghost w = self.width as int;
        let ghost h = self.height as int;
        let ghost goal = unpacked(w, h, self.data@);
        let width: usize = self.width as usize;
        let height: usize = self.height as usize;
        let stride: usize = Format::Gray1.row_bytes(self.width);
        let len: usize = self.data.len();
        let mut out: Vec<u8> = Vec::new();
        let mut y: usize = 0;
        assert(goal.take(0) =~= Seq::empty());
        assert(0 * w == 0);
        while y < height
            invariant
                y <= height,
                width == w == self.width,
                height == h == self.height,
                w > 0,
                stride == (w + 7) / 8,
                self.data@.len() == stride * h,
                len == self.data@.len(),
                goal == unpacked(w, h, self.data@),
                out@ == goal.take(y * w),
            decreases height - y,
        {
            let mut x: usize = 0;
            while x < width
                invariant
                    x <= width,
                    y < height,
                    width == w == self.width,
                    height == h == self.height,
                    w > 0,
                    stride == (w + 7) / 8,
                    self.data@.len() == stride * h,
                    len == self.data@.len(),
                    goal == unpacked(w, h, self.data@),
                        out@ == goal.take(y * w + x),
                decreases width - x,
            {
                proof {
                    lemma_within(y as int, x as int / 8, stride as int, h);
                    lemma_within(y as int, x as int, w, h);
                    lemma_place(y as int, x as int, w);
                }
                let b = self.data[y * stride + x / 8];
                let ghost before = out@;
                out.push(
                    if get_bit(b, x % 8) {
                        255
                    } else {
                        0
                    },
                );
                proof {
                    let i = y * w + x;
                    assert(goal[i] == out@[i]);
                    assert(out@ =~= goal.take(i + 1));
                }
                x += 1;
            }
            assert(y * w + w == (y + 1) * w) by (nonlinear_arith);
            y += 1;
        }
        assert(y * w == w * h) by (nonlinear_arith)
            requires
                y == h,
        ;
        assert(out@ =~= goal);
        Raster { width: self.width, height: self.height, format: Format::Gray8, data: out }
    }

    /// Packed 1-bit from 8-bit gray by thresholding at mid-gray.
    pub fn gray8_to_gray1(&self) -> (r: Raster)
        requires
            self.wf(),
            self.format == Format::Gray8,
        ensures
            r@ == as_gray1(self@),
            r.wf(),
    {
        let ghost w = self.width as int;
        let ghost h = self.height as int;
        let ghost goal = packed(w, h, self.data@);
        let width: usize = self.width as usize;
        let height: usize = self.height as usize;
        let stride: usize = Format::Gray1.row_bytes(self.width);
        let mut out: Vec<u8> = Vec::new();
        let mut y: usize = 0;
        assert(goal.take(0) =~= Seq::empty());
        assert(0 * stride == 0);
        proof {
            lemma_within(0, 0, w, h);
        }
        while y < height
            invariant
                y <= height,
                width == w == self.width,
                height == h == self.height,
                w > 0,
                self.wf(),
                self.format == Format::Gray8,
                stride == (w + 7) / 8,
                self.data@.len() == w * h,
                goal == packed(w, h, self.data@),
                out@ == goal.take(y * stride),
            decreases height - y,
        {
            let mut k: usize = 0;
            while k < stride
                invariant
                    k <= stride,
                    y < height,
                    width == w == self.width,
                    height == h == self.height,
                    w > 0,
                    self.wf(),
                    self.format == Format::Gray8,
                    stride == (w + 7) / 8,
                    self.data@.len() == w * h,
                    goal == packed(w, h, self.data@),
                    out@ == goal.take(y * stride + k),
                decreases stride - k,
            {
                let b = self.pack_byte(y, k);
                proof {
                    lemma_within(y as int, k as int, stride as int, h);
                    lemma_place(y as int, k as int, stride as int);
                    let j = y * stride + k;
                    assert(goal[j] == packed_byte(w, self.data@, y as int, k as int));
                }
                out.push(b);
                assert(out@ =~= goal.take(y * stride + k + 1));
                k += 1;
            }
            assert(y * stride + stride == (y + 1) * stride) by (nonlinear_arith);
            y += 1;
        }
        assert(y * stride == stride * h) by (nonlinear_arith)
            requires
                y == h,
        ;
        assert(out@ =~= goal);
        Raster { width: self.width, height: self.height, format: Format::Gray1, data: out }
    }

    fn is_light(&self, y: usize, x: usize) -> (r: bool)
        requires
            self.wf(),
            self.format == Format::Gray8,
            y < self.height,
            x < self.width + 8,
        ensures
            r == light(self.width as int, self.data@, y as int, x as int),
    {
        let width: usize = self.width as usize;
        let len: usize = self.data.len();
        if x >= width {
            return false;
        }
        proof {
            lemma_within(y as int, x as int, width as int, self.height as int);
        }
        self.data[y * width + x] >= 128
    }

    fn pack_byte(&self, y: usize, k: usize) -> (r: u8)
        requires
            self.wf(),
            self.format == Format::Gray8,
            y < self.height,
            k < (self.width + 7) / 8,
        ensures
            r == packed_byte(self.width as int, self.data@, y as int, k as int),
    {
        let ghost on = |i: int| light(self.width as int, self.data@, y as int, k * 8 + i);
        let at: usize = k * 8;
        let mut b: u8 = 0;
        if self.is_light(y, at) {
            b += 128;
        }
        assert(on(0) == light(self.width as int, self.data@, y as int, at as int));
        if self.is_light(y, at + 1) {
            b += 64;
        }
        if self.is_light(y, at + 2) {
            b += 32;
        }
        if self.is_light(y, at + 3) {
            b += 16;
        }
        if self.is_light(y, at + 4) {
            b += 8;
        }
        if self.is_light(y, at + 5) {
            b += 4;
        }
        if self.is_light(y, at + 6) {
            b += 2;
        }
        if self.is_light(y, at + 7) {
            b += 1;
        }
        assert(b == byte_of(on));
        b
    }
}

// ------------------------------------------------------------- laws

/// Packing rows that are black and white and unpacking them gives them back.
pub proof fn packing_round_trips(width: int, height: int, data: Seq<u8>)
    requires
        width > 0,
        height > 0,
        data.len() == width * height,
        forall|i: int| 0 <= i < data.len() ==> #[trigger] data[i] == 0 || data[i] == 255,
    ensures
        unpacked(width, height, packed(width, height, data)) == data,
{
    let stride = (width + 7) / 8;
    let p = packed(width, height, data);
    let u = unpacked(width, height, p);
    assert forall|i: int| 0 <= i < data.len() implies u[i] == data[i] by {
        lemma_row_of(i, width, height);
        let row = i / width;
        let column = i % width;
        lemma_within(row, column / 8, stride, height);
        lemma_place(row, column / 8, stride);
        let on = |k: int| light(width, data, row, column / 8 * 8 + k);
        lemma_byte_of(on, column % 8);
        assert(p[row * stride + column / 8] == byte_of(on));
        assert(data[i] == 0 || data[i] == 255);
    }
    assert(u =~= data);
}

/// Unpacking packed rows and packing them gives them back, where the rest of
/// each row's last byte is clear.
pub proof fn unpacking_round_trips(width: int, height: int, data: Seq<u8>)
    requires
        width > 0,
        height > 0,
        data.len() == (width + 7) / 8 * height,
        forall|row: int, column: int|
            0 <= row < height && width <= column < (width + 7) / 8 * 8 ==> !#[trigger] pixel_bit(
                width,
                data,
                row,
                column,
            ),
    ensures
        packed(width, height, unpacked(width, height, data)) == data,
{
    let stride = (width + 7) / 8;
    let u = unpacked(width, height, data);
    let p = packed(width, height, u);
    assert forall|j: int| 0 <= j < data.len() implies p[j] == data[j] by {
        lemma_row_of(j, stride, height);
        let row = j / stride;
        let at = j % stride;
        let on = |k: int| light(width, u, row, at * 8 + k);
        assert(p[j] == byte_of(on));
        assert forall|k: int| 0 <= k < 8 implies #[trigger] bit(p[j], k) == bit(data[j], k) by {
            lemma_byte_of(on, k);
            let column = at * 8 + k;
            assert(column / 8 == at && column % 8 == k);
            assert(pixel_bit(width, data, row, column) == bit(data[j], k));
            if column < width {
                lemma_within(row, column, width, height);
                lemma_place(row, column, width);
                assert(u[row * width + column] == if pixel_bit(width, data, row, column) {
                    255u8
                } else {
                    0u8
                });
            }
        }
        lemma_same_bits(p[j], data[j]);
    }
    assert(p =~= data);
}

} // verus!
