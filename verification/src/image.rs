//! A row-major image buffer and the pixel conversions that seam carving needs.

use vstd::prelude::*;
use ::image::Pixel;

verus! {

/// How the subpixels of one pixel are laid out.
#[derive(PartialEq, Eq, Structural, Clone, Copy, Debug)]
pub enum ColorLayout {
    /// One gray channel.
    Luma,
    /// A gray channel followed by an alpha channel.
    LumaA,
    /// Red, green and blue channels.
    Rgb,
    /// Red, green, blue and alpha channels.
    Rgba,
}

impl ColorLayout {
    /// The number of subpixels in a pixel of this layout.
    pub open spec fn channels(self) -> nat {
        match self {
            ColorLayout::Luma => 1,
            ColorLayout::LumaA => 2,
            ColorLayout::Rgb => 3,
            ColorLayout::Rgba => 4,
        }
    }

    /// The number of subpixels in a pixel of this layout.
    pub fn channel_count(&self) -> (n: usize)
        ensures
            n == self.channels(),
    {
        match self {
            ColorLayout::Luma => 1,
            ColorLayout::LumaA => 2,
            ColorLayout::Rgb => 3,
            ColorLayout::Rgba => 4,
        }
    }
}

/// The mathematical content of an [`Image`].
pub struct ImageView<T> {
    pub width: nat,
    pub height: nat,
    pub layout: ColorLayout,
    /// Subpixels, row by row, pixel by pixel, channel by channel.
    pub data: Seq<T>,
}

impl<T> ImageView<T> {
    pub open spec fn channels(self) -> nat {
        self.layout.channels()
    }

    /// The buffer holds exactly one pixel for each position.
    pub open spec fn wf(self) -> bool {
        &&& self.width <= u32::MAX
        &&& self.height <= u32::MAX
        &&& self.data.len() == self.width * self.height * self.channels()
    }

    /// Index of the first subpixel of the pixel at column `x`, row `y`.
    pub open spec fn offset(self, x: int, y: int) -> int {
        (y * self.width + x) * self.channels()
    }

    /// Channel `c` of the pixel at column `x`, row `y`.
    pub open spec fn at(self, x: int, y: int, c: int) -> T {
        self.data[self.offset(x, y) + c]
    }
}

/// An image stored as a flat row-major buffer of subpixels.
pub struct Image<T> {
    width: u32,
    height: u32,
    layout: ColorLayout,
    data: Vec<T>,
}

impl<T> View for Image<T> {
    type V = ImageView<T>;

    closed spec fn view(&self) -> ImageView<T> {
        ImageView { width: self.width as nat, height: self.height as nat, layout: self.layout, data: self.data@ }
    }
}

impl<T> Image<T> {
    #[verifier::type_invariant]
    pub open spec fn inv(self) -> bool {
        self@.wf()
    }

    /// Wraps a buffer of subpixels; `None` unless the buffer holds exactly
    /// `width * height` pixels of the given layout.
    pub fn from_raw(width: u32, height: u32, layout: ColorLayout, data: Vec<T>) -> (r: Option<Image<T>>)
        ensures
            r is Some <==> data@.len() == width * height * layout.channels(),
            r matches Some(img) ==> img@ == (ImageView { width: width as nat, height: height as nat, layout, data: data@ }),
    {
        let c = layout.channel_count();
        let dl = data.len();
        match (width as usize).checked_mul(height as usize) {
            Some(n) => match n.checked_mul(c) {
                Some(len) => {
                    if dl == len {
                        Some(Image { width, height, layout, data })
                    } else {
                        None
                    }
                },
                None => {
                    proof { lemma_len_too_large(width as nat, height as nat, c as nat, data@.len()); }
                    None
                },
            },
            None => {
                proof { lemma_len_too_large(width as nat, height as nat, c as nat, data@.len()); }
                None
            },
        }
    }

    /// Wraps a buffer whose length is known to fit the dimensions.
    pub fn from_parts(width: u32, height: u32, layout: ColorLayout, data: Vec<T>) -> (img: Image<T>)
        requires
            data@.len() == width * height * layout.channels(),
        ensures
            img@ == (ImageView { width: width as nat, height: height as nat, layout, data: data@ }),
    {
        Image { width, height, layout, data }
    }

    /// Wraps a one-channel plane of `width * height` values as a gray image.
    pub fn from_plane(width: u32, height: u32, data: Vec<T>) -> (img: Image<T>)
        requires
            data@.len() == width * height,
        ensures
            img@ == (ImageView { width: width as nat, height: height as nat, layout: ColorLayout::Luma, data: data@ }),
    {
        assert(width * height * 1 == width * height) by (nonlinear_arith);
        Image { width, height, layout: ColorLayout::Luma, data }
    }

    pub fn width(&self) -> (w: u32)
        ensures
            w == self@.width,
    {
        self.width
    }

    pub fn height(&self) -> (h: u32)
        ensures
            h == self@.height,
    {
        self.height
    }

    pub fn dimensions(&self) -> (d: (u32, u32))
        ensures
            d.0 == self@.width,
            d.1 == self@.height,
    {
        (self.width, self.height)
    }

    /// The number of pixels, `width * height`.
    pub fn pixel_count(&self) -> (n: usize)
        ensures
            n == self@.width * self@.height,
            self@.wf(),
    {
        proof {
            use_type_invariant(self);
            let (w, h, c) = (self@.width, self@.height, self@.channels());
            assert(w * h <= w * h * c) by (nonlinear_arith)
                requires
                    1 <= c,
            ;
        }
        let len: usize = self.data.len();
        (self.width as usize) * (self.height as usize)
    }

    pub fn layout(&self) -> (l: ColorLayout)
        ensures
            l == self@.layout,
    {
        self.layout
    }

    /// A copy of the image.
    pub fn copy(&self) -> (r: Image<T>)
        where
            T: Copy,
        ensures
            r@ == self@,
    {
        proof { use_type_invariant(self); }
        let n = self.data.len();
        let mut data: Vec<T> = Vec::new();
        let mut i: usize = 0;
        while i < n
            invariant
                n == self.data@.len(),
                0 <= i <= n,
                data@.len() == i,
                forall|j: int| 0 <= j < i ==> #[trigger] data@[j] == self.data@[j],
            decreases n - i,
        {
            data.push(self.data[i]);
            i = i + 1;
        }
        proof { assert(data@ =~= self.data@); }
        Image { width: self.width, height: self.height, layout: self.layout, data }
    }

    /// The subpixel buffer.
    pub fn as_raw(&self) -> (r: &Vec<T>)
        ensures
            r@ == self@.data,
            self@.wf(),
    {
        proof { use_type_invariant(self); }
        &self.data
    }

    /// Takes the subpixel buffer.
    pub fn into_raw(self) -> (r: Vec<T>)
        ensures
            r@ == self@.data,
    {
        self.data
    }
}

/// Entry `(x, y)` of a row-major plane of width `w`.
pub open spec fn plane_at<T>(s: Seq<T>, w: int, x: int, y: int) -> T {
    s[y * w + x]
}

/// Position `(x, y)` of a `w` by `h` row-major plane lies inside it.
pub proof fn lemma_plane_index(w: int, h: int, x: int, y: int)
    requires
        0 <= x < w,
        0 <= y < h,
    ensures
        0 <= y * w,
        y * w + x < w * h,
        y * w + w <= w * h,
        (y + 1) * w == y * w + w,
        w * h == h * w,
{
    assert(0 <= y * w && y * w + w <= w * h && (y + 1) * w == y * w + w && w * h == h * w) by (nonlinear_arith)
        requires
            0 <= x < w,
            0 <= y < h,
    ;
}

/// Row `y` of a `w`-wide plane with `h` rows ends within the plane.
pub proof fn lemma_row_offset(w: int, h: int, y: int)
    requires
        0 <= w,
        0 <= y < h,
    ensures
        0 <= y * w,
        y * w + w <= w * h,
        (y + 1) * w == y * w + w,
        w * h == h * w,
{
    assert(0 <= y * w && y * w + w <= w * h && (y + 1) * w == y * w + w && w * h == h * w) by (nonlinear_arith)
        requires
            0 <= w,
            0 <= y < h,
    ;
}

/// Distinct positions of a `w`-wide plane have distinct indices.
pub proof fn lemma_plane_distinct(w: int, x1: int, y1: int, x2: int, y2: int)
    requires
        0 <= x1 < w,
        0 <= x2 < w,
        0 <= y1,
        0 <= y2,
        x1 != x2 || y1 != y2,
    ensures
        y1 * w + x1 != y2 * w + x2,
{
    if y1 < y2 {
        assert(y1 * w + w <= y2 * w) by (nonlinear_arith)
            requires
                y1 < y2,
                0 <= w,
        ;
    } else if y2 < y1 {
        assert(y2 * w + w <= y1 * w) by (nonlinear_arith)
            requires
                y2 < y1,
                0 <= w,
        ;
    }
}

/// The row-major table of `f` over a `w` by `h` grid.
pub open spec fn plane_table<T>(w: int, h: int, f: spec_fn(int, int) -> T) -> Seq<T> {
    Seq::new((w * h) as nat, |k: int| f(k % w, k / w))
}

/// A plane that agrees with `f` at every position is the table of `f`.
pub proof fn lemma_plane_table<T>(s: Seq<T>, w: int, h: int, f: spec_fn(int, int) -> T)
    requires
        0 <= w,
        0 <= h,
        s.len() == w * h,
        forall|x: int, y: int| 0 <= x < w && 0 <= y < h ==> #[trigger] plane_at(s, w, x, y) == f(x, y),
    ensures
        s == plane_table(w, h, f),
{
    let t = plane_table(w, h, f);
    assert(w == 0 ==> w * h == 0) by (nonlinear_arith);
    assert forall|k: int| 0 <= k < s.len() implies s[k] == t[k] by {
        let x = k % w;
        let y = k / w;
        vstd::arithmetic::div_mod::lemma_fundamental_div_mod(k, w);
        vstd::arithmetic::div_mod::lemma_mod_pos_bound(k, w);
        assert(0 <= y) by {
            vstd::arithmetic::div_mod::lemma_div_pos_is_pos(k, w);
        }
        assert(y < h) by (nonlinear_arith)
            requires
                k == w * y + x,
                0 <= x,
                k < w * h,
                0 < w,
        ;
        assert(plane_at(s, w, x, y) == f(x, y));
        assert(y * w == w * y) by (nonlinear_arith);
    }
    assert(s =~= t);
}

/// Entry `(x, y)` of the table of `f` is `f(x, y)`.
pub proof fn lemma_plane_table_at<T>(w: int, h: int, f: spec_fn(int, int) -> T, x: int, y: int)
    requires
        0 <= x < w,
        0 <= y < h,
    ensures
        plane_table(w, h, f).len() == w * h,
        0 <= y * w + x < w * h,
        plane_at(plane_table(w, h, f), w, x, y) == f(x, y),
{
    lemma_plane_index(w, h, x, y);
    assert(y * w + x == y * w + x);
    vstd::arithmetic::div_mod::lemma_fundamental_div_mod_converse(y * w + x, w, y, x);
}

/// Subpixel `ch` of pixel `x` in row `y` of a plane of `w`-pixel rows with
/// `c` subpixels per pixel.
pub proof fn lemma_subpixel_offset(w: int, c: int, x: int, y: int, ch: int)
    requires
        0 <= x < w,
        0 <= y,
        0 <= ch < c,
    ensures
        (y * w + x) * c + ch == y * (w * c) + (x * c + ch),
        0 <= x * c + ch < w * c,
        0 <= y * (w * c),
        (y + 1) * (w * c) == y * (w * c) + w * c,
        (y * w + x) * c + c == (y * w + x + 1) * c,
        0 <= (y * w + x) * c,
{
    assert((y * w + x) * c + ch == y * (w * c) + (x * c + ch)) by (nonlinear_arith);
    assert(0 <= x * c + ch < w * c) by (nonlinear_arith)
        requires
            0 <= x < w,
            0 <= ch < c,
    ;
    assert(0 <= y * (w * c) && 0 <= (y * w + x) * c) by (nonlinear_arith)
        requires
            0 <= x < w,
            0 <= y,
            0 <= ch < c,
    ;
    assert((y + 1) * (w * c) == y * (w * c) + w * c) by (nonlinear_arith);
    assert((y * w + x) * c + c == (y * w + x + 1) * c) by (nonlinear_arith);
}

/// The sRGB luminance that `image` assigns to an 8-bit colour.
pub open spec fn luma_of(r: u8, g: u8, b: u8) -> int {
    (2126 * r + 7152 * g + 722 * b) / 10000
}

/// `<image::Luma<u8> as Pixel>::to_luma`, which copies the gray value.
#[verifier::external_body]
fn luma_to_luma(l: u8) -> (r: u8)
    ensures
        r == l,
{
    ::image::Luma([l]).to_luma().0[0]
}

/// `<image::LumaA<u8> as Pixel>::to_luma`, which keeps the gray value and drops alpha.
#[verifier::external_body]
fn luma_alpha_to_luma(l: u8, a: u8) -> (r: u8)
    ensures
        r == l,
{
    ::image::LumaA([l, a]).to_luma().0[0]
}

/// `<image::Rgb<u8> as Pixel>::to_luma`: `(2126 r + 7152 g + 722 b) / 10000`,
/// computed in `u32` and rounded down.
#[verifier::external_body]
fn rgb_to_luma(r: u8, g: u8, b: u8) -> (l: u8)
    ensures
        l == luma_of(r, g, b),
{
    ::image::Rgb([r, g, b]).to_luma().0[0]
}

/// `<image::Rgba<u8> as Pixel>::to_luma`: the luminance of the colour channels;
/// alpha does not take part.
#[verifier::external_body]
fn rgba_to_luma(r: u8, g: u8, b: u8, a: u8) -> (l: u8)
    ensures
        l == luma_of(r, g, b),
{
    ::image::Rgba([r, g, b, a]).to_luma().0[0]
}

/// `<image::Luma<u8> as Pixel>::to_rgba`: the gray value in every colour channel, opaque.
#[verifier::external_body]
fn luma_to_rgba(l: u8) -> (p: (u8, u8, u8, u8))
    ensures
        p == (l, l, l, 255u8),
{
    let q = ::image::Luma([l]).to_rgba();
    (q.0[0], q.0[1], q.0[2], q.0[3])
}

/// `<image::LumaA<u8> as Pixel>::to_rgba`: the gray value in every colour channel,
/// alpha kept.
#[verifier::external_body]
fn luma_alpha_to_rgba(l: u8, a: u8) -> (p: (u8, u8, u8, u8))
    ensures
        p == (l, l, l, a),
{
    let q = ::image::LumaA([l, a]).to_rgba();
    (q.0[0], q.0[1], q.0[2], q.0[3])
}

/// `<image::Rgb<u8> as Pixel>::to_rgba`: the colour channels, opaque.
#[verifier::external_body]
fn rgb_to_rgba(r: u8, g: u8, b: u8) -> (p: (u8, u8, u8, u8))
    ensures
        p == (r, g, b, 255u8),
{
    let q = ::image::Rgb([r, g, b]).to_rgba();
    (q.0[0], q.0[1], q.0[2], q.0[3])
}

/// `<image::Rgba<u8> as Pixel>::to_rgba`, which copies the pixel.
#[verifier::external_body]
fn rgba_to_rgba(r: u8, g: u8, b: u8, a: u8) -> (p: (u8, u8, u8, u8))
    ensures
        p == (r, g, b, a),
{
    let q = ::image::Rgba([r, g, b, a]).to_rgba();
    (q.0[0], q.0[1], q.0[2], q.0[3])
}

/// The `k`-th RGBA pixel of a buffer of four subpixels per pixel.
pub open spec fn rgba_at(d: Seq<u8>, k: int) -> (u8, u8, u8, u8) {
    (d[4 * k], d[4 * k + 1], d[4 * k + 2], d[4 * k + 3])
}

/// Overwrites the `k`-th pixel of a buffer of RGBA pixels.
pub(crate) fn set_rgba(buf: &mut Vec<u8>, k: usize, p: (u8, u8, u8, u8))
    requires
        4 * k + 4 <= old(buf)@.len(),
    ensures
        final(buf)@.len() == old(buf)@.len(),
        rgba_at(final(buf)@, k as int) == p,
        forall|j: int| 0 <= j < old(buf)@.len() / 4 && j != k ==> #[trigger] rgba_at(final(buf)@, j) == rgba_at(old(buf)@, j),
{
    let len: usize = buf.len();
    buf[4 * k] = p.0;
    buf[4 * k + 1] = p.1;
    buf[4 * k + 2] = p.2;
    buf[4 * k + 3] = p.3;
}

impl ImageView<u8> {
    /// The intensity (luma) of the `k`-th pixel in row-major order.
    pub open spec fn intensity(self, k: int) -> u8 {
        let d = self.data;
        match self.layout {
            ColorLayout::Luma => d[k],
            ColorLayout::LumaA => d[2 * k],
            ColorLayout::Rgb => luma_of(d[3 * k], d[3 * k + 1], d[3 * k + 2]) as u8,
            ColorLayout::Rgba => luma_of(d[4 * k], d[4 * k + 1], d[4 * k + 2]) as u8,
        }
    }

    /// The `k`-th pixel in row-major order, converted to RGBA.
    pub open spec fn rgba(self, k: int) -> (u8, u8, u8, u8) {
        let d = self.data;
        match self.layout {
            ColorLayout::Luma => (d[k], d[k], d[k], 255u8),
            ColorLayout::LumaA => (d[2 * k], d[2 * k], d[2 * k], d[2 * k + 1]),
            ColorLayout::Rgb => (d[3 * k], d[3 * k + 1], d[3 * k + 2], 255u8),
            ColorLayout::Rgba => (d[4 * k], d[4 * k + 1], d[4 * k + 2], d[4 * k + 3]),
        }
    }
}

proof fn lemma_luma_range(r: u8, g: u8, b: u8)
    ensures
        0 <= luma_of(r, g, b) <= 255,
{
    assert(0 <= luma_of(r, g, b) <= 255) by (nonlinear_arith);
}

/// Pixel `k` (of `n`) starts at subpixel `k * c` and ends within the buffer.
proof fn lemma_pixel_index(k: int, n: int, c: int)
    requires
        0 <= k < n,
        1 <= c,
    ensures
        0 <= k * c,
        k * c == c * k,
        c * k + c <= n * c,
{
    assert(0 <= k * c && k * c == c * k && c * k + c <= n * c) by (nonlinear_arith)
        requires
            0 <= k < n,
            1 <= c,
    ;
}

impl Image<u8> {
    /// The intensity of the `k`-th pixel in row-major order.
    pub fn pixel_intensity(&self, k: usize) -> (l: u8)
        requires
            k < self@.width * self@.height,
        ensures
            l == self@.intensity(k as int),
    {
        proof {
            use_type_invariant(self);
            lemma_pixel_index(k as int, (self@.width * self@.height) as int, self@.channels() as int);
        }
        let d = &self.data;
        let len: usize = d.len();
        match self.layout {
            ColorLayout::Luma => luma_to_luma(d[k]),
            ColorLayout::LumaA => luma_alpha_to_luma(d[2 * k], d[2 * k + 1]),
            ColorLayout::Rgb => {
                proof { lemma_luma_range(d[3 * k as int], d[3 * k + 1], d[3 * k + 2]); }
                rgb_to_luma(d[3 * k], d[3 * k + 1], d[3 * k + 2])
            },
            ColorLayout::Rgba => {
                proof { lemma_luma_range(d[4 * k as int], d[4 * k + 1], d[4 * k + 2]); }
                rgba_to_luma(d[4 * k], d[4 * k + 1], d[4 * k + 2], d[4 * k + 3])
            },
        }
    }

    /// The `k`-th pixel in row-major order, converted to RGBA.
    pub fn pixel_rgba(&self, k: usize) -> (p: (u8, u8, u8, u8))
        requires
            k < self@.width * self@.height,
        ensures
            p == self@.rgba(k as int),
    {
        proof {
            use_type_invariant(self);
            lemma_pixel_index(k as int, (self@.width * self@.height) as int, self@.channels() as int);
        }
        let d = &self.data;
        let len: usize = d.len();
        match self.layout {
            ColorLayout::Luma => luma_to_rgba(d[k]),
            ColorLayout::LumaA => luma_alpha_to_rgba(d[2 * k], d[2 * k + 1]),
            ColorLayout::Rgb => rgb_to_rgba(d[3 * k], d[3 * k + 1], d[3 * k + 2]),
            ColorLayout::Rgba => rgba_to_rgba(d[4 * k], d[4 * k + 1], d[4 * k + 2], d[4 * k + 3]),
        }
    }
}

proof fn lemma_len_too_large(w: nat, h: nat, c: nat, len: nat)
    requires
        len <= usize::MAX,
        w * h > usize::MAX || w * h * c > usize::MAX,
        1 <= c,
    ensures
        len != w * h * c,
{
    assert(w * h <= w * h * c) by (nonlinear_arith)
        requires
            1 <= c,
    ;
}

} // verus!
