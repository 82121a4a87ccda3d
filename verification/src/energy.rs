//! Pixel energies and their bottom-up cumulative minima.

use vstd::prelude::*;
use crate::image::{ColorLayout, Image, ImageView, plane_at, plane_table, lemma_plane_index, lemma_row_offset, lemma_plane_distinct};

verus! {

pub open spec fn abs_diff(a: int, b: int) -> int {
    if a >= b { a - b } else { b - a }
}

/// The energy of pixel `(x, y)` of a `w` by `h` intensity plane `i`.
///
/// `dx` and `dy` are central differences whose neighbours are clamped to the
/// image; inside the image both span two pixels and their sum is halved.
pub open spec fn energy_at(i: Seq<u8>, w: int, h: int, x: int, y: int) -> int {
    let xl = if x > 0 { x - 1 } else { 0 };
    let xr = if x + 1 < w { x + 1 } else { w - 1 };
    let yu = if y > 0 { y - 1 } else { 0 };
    let yd = if y + 1 < h { y + 1 } else { h - 1 };
    let dx = abs_diff(plane_at(i, w, xr, y) as int, plane_at(i, w, xl, y) as int);
    let dy = abs_diff(plane_at(i, w, x, yd) as int, plane_at(i, w, x, yu) as int);
    if 0 < x < w - 1 && 0 < y < h - 1 {
        (dx + dy) / 2
    } else {
        dx + dy
    }
}

/// The intensity of every pixel of `img`, in row-major order.
pub open spec fn intensity_plane(img: ImageView<u8>) -> Seq<u8> {
    Seq::new(img.width * img.height, |k: int| img.intensity(k))
}

/// The energy of every pixel of a `w` by `h` intensity plane.
pub open spec fn energy_plane(i: Seq<u8>, w: int, h: int) -> Seq<u16> {
    plane_table(w, h, |x: int, y: int| energy_at(i, w, h, x, y) as u16)
}

/// The cumulative energy of every pixel of a `w` by `h` energy plane.
pub open spec fn cumulative_plane(e: Seq<u16>, w: int, h: int) -> Seq<u64> {
    plane_table(w, h, |x: int, y: int| cumulative(e, w, h, x, y) as u64)
}

/// The largest energy a pixel can have.
pub open spec fn max_energy() -> int {
    510
}

pub proof fn lemma_energy_bound(i: Seq<u8>, w: int, h: int, x: int, y: int)
    ensures
        0 <= energy_at(i, w, h, x, y) <= max_energy(),
{
}

fn abs_diff_u8(a: u8, b: u8) -> (d: u16)
    ensures
        d == abs_diff(a as int, b as int),
{
    if a >= b {
        (a - b) as u16
    } else {
        (b - a) as u16
    }
}

/// The intensity (luma) of each pixel of `img`, as a gray image of the same size.
pub fn compute_intensity(img: &Image<u8>) -> (out: Image<u8>)
    ensures
        out@.width == img@.width,
        out@.height == img@.height,
        out@.layout == ColorLayout::Luma,
        out@.data.len() == img@.width * img@.height,
        forall|k: int| 0 <= k < img@.width * img@.height ==> #[trigger] out@.data[k] == img@.intensity(k),
{
    let (width, height) = img.dimensions();
    let n = img.pixel_count();
    let mut data: Vec<u8> = Vec::new();
    let mut k: usize = 0;
    while k < n
        invariant
            n == width * height,
            width == img@.width,
            height == img@.height,
            k <= n,
            data@.len() == k,
            forall|j: int| 0 <= j < k ==> #[trigger] data@[j] == img@.intensity(j),
        decreases n - k,
    {
        data.push(img.pixel_intensity(k));
        k = k + 1;
    }
    Image::from_plane(width, height, data)
}

/// The energy of every pixel of a gray intensity image (see [`energy_at`]).
pub fn compute_energy(intensity: &Image<u8>) -> (out: Image<u16>)
    requires
        intensity@.layout == ColorLayout::Luma,
    ensures
        out@.width == intensity@.width,
        out@.height == intensity@.height,
        out@.layout == ColorLayout::Luma,
        out@.data.len() == intensity@.width * intensity@.height,
        forall|x: int, y: int|
            0 <= x < intensity@.width && 0 <= y < intensity@.height ==>
                #[trigger] plane_at(out@.data, intensity@.width as int, x, y)
                    == energy_at(intensity@.data, intensity@.width as int, intensity@.height as int, x, y),
{
    let (width, height) = intensity.dimensions();
    let n = intensity.pixel_count();
    let src = intensity.as_raw();
    let w = width as usize;
    let h = height as usize;
    let ghost i = src@;
    assert(w * h * 1 == w * h) by (nonlinear_arith);
    let mut out: Vec<u16> = Vec::new();
    let mut y: usize = 0;
    while y < h
        invariant
            w == width,
            h == height,
            n == w * h,
            i == src@,
            i.len() == n,
            0 <= y <= h,
            out@.len() == y * w,
            forall|xx: int, yy: int|
                0 <= xx < w && 0 <= yy < y ==>
                    #[trigger] plane_at(out@, w as int, xx, yy) == energy_at(i, w as int, h as int, xx, yy),
        decreases h - y,
    {
        proof { lemma_row_offset(w as int, h as int, y as int); }
        let row = y * w;
        let yu = if y > 0 { y - 1 } else { 0 };
        let yd = if y + 1 < h { y + 1 } else { h - 1 };
        proof {
            lemma_row_offset(w as int, h as int, yu as int);
            lemma_row_offset(w as int, h as int, yd as int);
        }
        let up = yu * w;
        let down = yd * w;
        let ghost done = out@;
        let mut x: usize = 0;
        while x < w
            invariant
                w == width,
                h == height,
                n == w * h,
                i == src@,
                i.len() == n,
                0 <= y < h,
                row == y * w,
                up == yu * w,
                down == yd * w,
                yu == (if y > 0 { y - 1 } else { 0 }),
                yd == (if y + 1 < h { y + 1 } else { h - 1 }),
                row + w <= n,
                up + w <= n,
                down + w <= n,
                0 <= x <= w,
                out@.len() == row + x,
                out@.subrange(0, row as int) == done,
                forall|xx: int| 0 <= xx < x ==> #[trigger] out@[row + xx] == energy_at(i, w as int, h as int, xx, y as int),
            decreases w - x,
        {
            let xl = if x > 0 { x - 1 } else { 0 };
            let xr = if x + 1 < w { x + 1 } else { w - 1 };
            let dx = abs_diff_u8(src[row + xr], src[row + xl]);
            let dy = abs_diff_u8(src[down + x], src[up + x]);
            let e: u16 = if 0 < x && x + 1 < w && 0 < y && y + 1 < h {
                (dx + dy) / 2
            } else {
                dx + dy
            };
            assert(e == energy_at(i, w as int, h as int, x as int, y as int));
            out.push(e);
            assert(out@.subrange(0, row as int) =~= done);
            x = x + 1;
        }
        proof {
            assert forall|xx: int, yy: int|
                0 <= xx < w && 0 <= yy < y + 1 implies
                    #[trigger] plane_at(out@, w as int, xx, yy) == energy_at(i, w as int, h as int, xx, yy) by {
                if yy < y {
                    lemma_plane_index(w as int, y as int, xx, yy);
                    assert(out@.subrange(0, row as int)[yy * w + xx] == out@[yy * w + xx]);
                    assert(plane_at(done, w as int, xx, yy) == energy_at(i, w as int, h as int, xx, yy));
                } else {
                    assert(out@[row + xx] == energy_at(i, w as int, h as int, xx, y as int));
                }
            }
        }
        y = y + 1;
    }
    assert(h * w == w * h) by (nonlinear_arith);
    Image::from_plane(width, height, out)
}

pub open spec fn min2(a: int, b: int) -> int {
    if a <= b { a } else { b }
}

/// The least total energy of a path from pixel `(x, y)` down to the bottom
/// row that moves at most one column per row (Eq. 9 of Huang et al.):
/// `m(x, y) = e(x, y) + min(m(x - 1, y + 1), m(x, y + 1), m(x + 1, y + 1))`,
/// with neighbours outside the image left out, and `m = e` on the bottom row.
pub open spec fn cumulative(e: Seq<u16>, w: int, h: int, x: int, y: int) -> int
    decreases h - y,
{
    if y + 1 >= h {
        plane_at(e, w, x, y) as int
    } else {
        let c = cumulative(e, w, h, x, y + 1);
        let l = if x > 0 { cumulative(e, w, h, x - 1, y + 1) } else { c };
        let r = if x + 1 < w { cumulative(e, w, h, x + 1, y + 1) } else { c };
        plane_at(e, w, x, y) + min2(min2(c, l), r)
    }
}

/// Every energy of the plane is at most `b`.
pub open spec fn energies_bounded(e: Seq<u16>, w: int, h: int, b: int) -> bool {
    forall|x: int, y: int| 0 <= x < w && 0 <= y < h ==> #[trigger] plane_at(e, w, x, y) <= b
}

/// A path from row `y` to the bottom crosses `h - y` pixels.
pub proof fn lemma_cumulative_bound(e: Seq<u16>, w: int, h: int, x: int, y: int, b: int)
    requires
        0 <= x < w,
        0 <= y < h,
        0 <= b,
        energies_bounded(e, w, h, b),
    ensures
        0 <= cumulative(e, w, h, x, y) <= b * (h - y),
    decreases h - y,
{
    assert(plane_at(e, w, x, y) <= b);
    if y + 1 < h {
        lemma_cumulative_bound(e, w, h, x, y + 1, b);
        if x > 0 {
            lemma_cumulative_bound(e, w, h, x - 1, y + 1, b);
        }
        if x + 1 < w {
            lemma_cumulative_bound(e, w, h, x + 1, y + 1, b);
        }
        assert(b * (h - y) == b * (h - (y + 1)) + b) by (nonlinear_arith);
    } else {
        assert(b * (h - y) == b) by (nonlinear_arith)
            requires
                y + 1 == h,
        ;
    }
}

/// `p` is a path from column `x` of row `y` down to the bottom row of a `w` by
/// `h` plane: one column per row, inside the plane, moving at most one column
/// from a row to the next.
pub open spec fn is_down_path(w: int, h: int, x: int, y: int, p: Seq<int>) -> bool {
    &&& p.len() == h - y
    &&& p.len() >= 1 && p[0] == x
    &&& forall|i: int| 0 <= i < p.len() ==> 0 <= #[trigger] p[i] < w
    &&& forall|i: int| 1 <= i < p.len() ==> -1 <= (#[trigger] p[i]) - p[i - 1] <= 1
}

/// The total energy of the pixels that a path starting in row `y` crosses.
pub open spec fn down_path_energy(e: Seq<u16>, w: int, y: int, p: Seq<int>) -> int
    decreases p.len(),
{
    if p.len() == 0 {
        0
    } else {
        plane_at(e, w, p[0], y) + down_path_energy(e, w, y + 1, p.drop_first())
    }
}

/// No path down from `(x, y)` crosses less energy than `cumulative`.
proof fn lemma_cumulative_at_most(e: Seq<u16>, w: int, h: int, x: int, y: int, p: Seq<int>)
    requires
        0 <= y < h,
        is_down_path(w, h, x, y, p),
    ensures
        cumulative(e, w, h, x, y) <= down_path_energy(e, w, y, p),
    decreases h - y,
{
    let q = p.drop_first();
    if y + 1 < h {
        assert(0 <= p[1] < w);
        assert(-1 <= p[1] - p[0] <= 1);
        assert forall|i: int| 0 <= i < q.len() implies 0 <= #[trigger] q[i] < w by {
            assert(q[i] == p[i + 1]);
        }
        assert forall|i: int| 1 <= i < q.len() implies -1 <= (#[trigger] q[i]) - q[i - 1] <= 1 by {
            assert(q[i] == p[i + 1] && q[i - 1] == p[(i + 1) - 1]);
        }
        lemma_cumulative_at_most(e, w, h, p[1], y + 1, q);
    } else {
        assert(q.len() == 0);
        assert(down_path_energy(e, w, y + 1, q) == 0);
    }
}

/// The column, among those below `(x, y)`, through which the cheapest path
/// down from `(x, y)` continues.
pub open spec fn best_next(e: Seq<u16>, w: int, h: int, x: int, y: int) -> int {
    let c = cumulative(e, w, h, x, y + 1);
    let l = if x > 0 { cumulative(e, w, h, x - 1, y + 1) } else { c };
    let r = if x + 1 < w { cumulative(e, w, h, x + 1, y + 1) } else { c };
    let best = min2(min2(c, l), r);
    if best == c {
        x
    } else if best == l {
        x - 1
    } else {
        x + 1
    }
}

/// The cheapest path down from `(x, y)`, following [`best_next`].
pub open spec fn best_path(e: Seq<u16>, w: int, h: int, x: int, y: int) -> Seq<int>
    decreases h - y,
{
    if y + 1 >= h {
        seq![x]
    } else {
        seq![x] + best_path(e, w, h, best_next(e, w, h, x, y), y + 1)
    }
}

/// [`best_path`] is a path down from `(x, y)` that crosses exactly `cumulative`.
proof fn lemma_best_path(e: Seq<u16>, w: int, h: int, x: int, y: int)
    requires
        0 <= x < w,
        0 <= y < h,
    ensures
        is_down_path(w, h, x, y, best_path(e, w, h, x, y)),
        down_path_energy(e, w, y, best_path(e, w, h, x, y)) == cumulative(e, w, h, x, y),
    decreases h - y,
{
    let p = best_path(e, w, h, x, y);
    if y + 1 < h {
        let n = best_next(e, w, h, x, y);
        let q = best_path(e, w, h, n, y + 1);
        lemma_best_path(e, w, h, n, y + 1);
        assert(p.drop_first() =~= q);
        assert forall|i: int| 0 <= i < p.len() implies 0 <= #[trigger] p[i] < w by {
            if i > 0 {
                assert(p[i] == q[i - 1]);
            }
        }
        assert forall|i: int| 1 <= i < p.len() implies -1 <= (#[trigger] p[i]) - p[i - 1] <= 1 by {
            if i > 1 {
                assert(p[i] == q[i - 1] && p[i - 1] == q[(i - 1) - 1]);
            } else {
                assert(p[1] == q[0]);
            }
        }
        assert(down_path_energy(e, w, y, p) == plane_at(e, w, x, y) + down_path_energy(e, w, y + 1, q));
    } else {
        assert(p.drop_first().len() == 0);
        assert(down_path_energy(e, w, y + 1, p.drop_first()) == 0);
    }
}

/// `cumulative(x, y)` is the least total energy of a path from `(x, y)` down
/// to the bottom row that moves at most one column per row: no such path
/// crosses less, and one crosses exactly that much.
pub proof fn lemma_cumulative_is_least(e: Seq<u16>, w: int, h: int, x: int, y: int)
    requires
        0 <= x < w,
        0 <= y < h,
    ensures
        forall|p: Seq<int>| #[trigger] is_down_path(w, h, x, y, p) ==> cumulative(e, w, h, x, y) <= down_path_energy(e, w, y, p),
        exists|p: Seq<int>| #[trigger] is_down_path(w, h, x, y, p) && down_path_energy(e, w, y, p) == cumulative(e, w, h, x, y),
{
    assert forall|p: Seq<int>| #[trigger] is_down_path(w, h, x, y, p) implies cumulative(e, w, h, x, y) <= down_path_energy(e, w, y, p) by {
        lemma_cumulative_at_most(e, w, h, x, y, p);
    }
    lemma_best_path(e, w, h, x, y);
    let p = best_path(e, w, h, x, y);
    assert(is_down_path(w, h, x, y, p));
}

/// The cumulative energy `m` (see [`cumulative`]) of every pixel, filled bottom-up.
pub fn compute_bottom_up_min_cumulative_energy(energy: &Image<u16>) -> (out: Image<u64>)
    requires
        energy@.layout == ColorLayout::Luma,
        energy@.height >= 1,
        energy@.width >= 2 || energy@.height == 1,
    ensures
        out@.width == energy@.width,
        out@.height == energy@.height,
        out@.layout == ColorLayout::Luma,
        out@.data.len() == energy@.width * energy@.height,
        forall|x: int, y: int|
            0 <= x < energy@.width && 0 <= y < energy@.height ==>
                #[trigger] plane_at(out@.data, energy@.width as int, x, y)
                    == cumulative(energy@.data, energy@.width as int, energy@.height as int, x, y),
{
    let (width, height) = energy.dimensions();
    let n = energy.pixel_count();
    let src = energy.as_raw();
    let w = width as usize;
    let h = height as usize;
    let ghost e = src@;
    let ghost wi = w as int;
    let ghost hi = h as int;
    assert(w * h * 1 == w * h) by (nonlinear_arith);
    proof {
        assert forall|x: int, y: int| 0 <= x < wi && 0 <= y < hi implies #[trigger] plane_at(e, wi, x, y) <= 65535 by {
            lemma_plane_index(wi, hi, x, y);
        }
    }
    let mut m: Vec<u64> = Vec::new();
    let mut k: usize = 0;
    while k < n
        invariant
            k <= n,
            m@.len() == k,
        decreases n - k,
    {
        m.push(0);
        k = k + 1;
    }
    proof { lemma_row_offset(wi, hi, hi - 1); }
    let row = (h - 1) * w;
    let mut x: usize = 0;
    while x < w
        invariant
            w == width,
            h == height,
            wi == w,
            hi == h,
            n == w * h,
            e == src@,
            e.len() == n,
            h >= 1,
            row == (h - 1) * w,
            row + w <= n,
            m@.len() == n,
            0 <= x <= w,
            forall|xx: int| 0 <= xx < x ==> #[trigger] plane_at(m@, wi, xx, hi - 1) == cumulative(e, wi, hi, xx, hi - 1),
        decreases w - x,
    {
        let v = src[row + x] as u64;
        let ghost old_m = m@;
        m[row + x] = v;
        proof {
            assert forall|xx: int| 0 <= xx < x + 1 implies #[trigger] plane_at(m@, wi, xx, hi - 1) == cumulative(e, wi, hi, xx, hi - 1) by {
                if xx < x {
                    lemma_plane_distinct(wi, xx, hi - 1, x as int, hi - 1);
                    assert(plane_at(old_m, wi, xx, hi - 1) == cumulative(e, wi, hi, xx, hi - 1));
                } else {
                    assert(plane_at(m@, wi, xx, hi - 1) == m@[row + x]);
                    assert(plane_at(e, wi, xx, hi - 1) == src@[row + x]);
                }
            }
        }
        x = x + 1;
    }
    let mut y: usize = h - 1;
    while y > 0
        invariant
            w == width,
            h == height,
            wi == w,
            hi == h,
            n == w * h,
            e == src@,
            e.len() == n,
            h >= 1,
            w >= 2 || h == 1,
            y < h,
            m@.len() == n,
            forall|p: int, q: int| 0 <= p < wi && 0 <= q < hi ==> #[trigger] plane_at(e, wi, p, q) <= 65535,
            forall|xx: int, yy: int|
                0 <= xx < w && y <= yy < h ==>
                    #[trigger] plane_at(m@, wi, xx, yy) == cumulative(e, wi, hi, xx, yy),
        decreases y,
    {
        y = y - 1;
        proof { lemma_row_offset(wi, hi, y as int); lemma_row_offset(wi, hi, y + 1); }
        let row = y * w;
        let below = row + w;
        let mut x: usize = 0;
        while x < w
            invariant
                w == width,
                h == height,
                wi == w,
                hi == h,
                n == w * h,
                e == src@,
                e.len() == n,
                w >= 2,
                y + 1 < h,
                row == y * w,
                below == (y + 1) * w,
                below == row + w,
                below + w <= n,
                m@.len() == n,
                0 <= x <= w,
                forall|p: int, q: int| 0 <= p < wi && 0 <= q < hi ==> #[trigger] plane_at(e, wi, p, q) <= 65535,
                forall|xx: int, yy: int|
                    0 <= xx < w && y < yy < h ==>
                        #[trigger] plane_at(m@, wi, xx, yy) == cumulative(e, wi, hi, xx, yy),
                forall|xx: int| 0 <= xx < x ==> #[trigger] plane_at(m@, wi, xx, y as int) == cumulative(e, wi, hi, xx, y as int),
            decreases w - x,
        {
            let c = m[below + x];
            let mut best = c;
            if x > 0 {
                let l = m[below + x - 1];
                if l < best {
                    best = l;
                }
            }
            if x + 1 < w {
                let r = m[below + x + 1];
                if r < best {
                    best = r;
                }
            }
            proof {
                assert(energies_bounded(e, wi, hi, 65535));
                lemma_cumulative_bound(e, wi, hi, x as int, y + 1, 65535);
                assert(plane_at(m@, wi, x as int, y + 1) == cumulative(e, wi, hi, x as int, y + 1));
                if x > 0 {
                    assert(plane_at(m@, wi, x - 1, y + 1) == cumulative(e, wi, hi, x - 1, y + 1));
                }
                if x + 1 < w {
                    assert(plane_at(m@, wi, x + 1, y + 1) == cumulative(e, wi, hi, x + 1, y + 1));
                }
                assert(65535 * (hi - (y + 1)) + 65535 <= 65535 * hi);
                assert(plane_at(e, wi, x as int, y as int) <= 65535);
            }
            let v = src[row + x] as u64 + best;
            let ghost old_m = m@;
            m[row + x] = v;
            proof {
                assert forall|xx: int, yy: int|
                    0 <= xx < w && y < yy < h implies
                        #[trigger] plane_at(m@, wi, xx, yy) == cumulative(e, wi, hi, xx, yy) by {
                    lemma_plane_distinct(wi, xx, yy, x as int, y as int);
                    lemma_plane_index(wi, hi, xx, yy);
                    assert(plane_at(old_m, wi, xx, yy) == cumulative(e, wi, hi, xx, yy));
                }
                assert forall|xx: int| 0 <= xx < x + 1 implies #[trigger] plane_at(m@, wi, xx, y as int) == cumulative(e, wi, hi, xx, y as int) by {
                    if xx < x {
                        lemma_plane_distinct(wi, xx, y as int, x as int, y as int);
                        assert(plane_at(old_m, wi, xx, y as int) == cumulative(e, wi, hi, xx, y as int));
                    } else {
                        assert(plane_at(m@, wi, xx, y as int) == m@[row + x]);
                        assert(plane_at(e, wi, xx, y as int) == src@[row + x]);
                    }
                }
            }
            x = x + 1;
        }
    }
    assert(h * w == w * h) by (nonlinear_arith);
    Image::from_plane(width, height, m)
}

} // verus!
