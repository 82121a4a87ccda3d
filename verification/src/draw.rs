//! Drawing seams onto images.

use vstd::prelude::*;
use crate::image::{ColorLayout, Image, ImageView, rgba_at, set_rgba, lemma_plane_index, lemma_plane_distinct};
use crate::seams::{
    VerticalSeam, VerticalSeams, SeamsView, lowest_seams, is_lowest_selection, sorted_columns, step_column,
    lemma_position_range, lemma_position_injective, lemma_swap_rows_fewer,
};
use crate::carve::{
    crossed, kept_columns, lemma_kept_all, lemma_kept_count, lemma_kept_index, lemma_kept_range,
    lemma_kept_not_removed, lemma_removed_count_insert,
};

verus! {

/// Opaque red, the colour of drawn seams.
pub open spec fn red() -> (u8, u8, u8, u8) {
    (255u8, 0u8, 0u8, 255u8)
}

/// Entry `r` (counted from the bottom row) of seam `i`.
pub open spec fn seam_x(seams: Seq<VerticalSeam>, i: int, r: int) -> int {
    seams[i].0@[r] as int
}

/// The columns of the original image, at entry `r`, that removing the seams
/// `0..n` one after another from a `w`-wide image takes out: each seam takes
/// out the column numbered (from 0) by its entry among the columns that the
/// earlier seams left.
pub open spec fn removed_columns(seams: Seq<VerticalSeam>, n: int, r: int, w: int) -> Seq<int>
    decreases n,
{
    if n <= 0 {
        Seq::empty()
    } else {
        let prev = removed_columns(seams, n - 1, r, w);
        prev.push(kept_columns(|c: int| prev.contains(c), w)[seam_x(seams, n - 1, r)])
    }
}

/// At entry `r`, each of the seams `0..n` lies in the image it was removed
/// from: the entry of seam `j` is one of the `w - j` columns the earlier
/// seams left.
pub open spec fn fits_removal(seams: Seq<VerticalSeam>, n: int, r: int, w: int) -> bool {
    forall|j: int| 0 <= j < n ==> #[trigger] seam_x(seams, j, r) < w - j
}

/// Removing seams one after another takes out distinct columns of the image,
/// and leaves `w - n` columns.
pub proof fn lemma_removed_columns(seams: Seq<VerticalSeam>, n: int, r: int, w: int)
    requires
        0 <= n,
        0 <= w,
        fits_removal(seams, n, r, w),
    ensures
        removed_columns(seams, n, r, w).len() == n,
        removed_columns(seams, n, r, w).no_duplicates(),
        forall|k: int| 0 <= k < n ==> 0 <= #[trigger] removed_columns(seams, n, r, w)[k] < w,
        kept_columns(|c: int| removed_columns(seams, n, r, w).contains(c), w).len() == w - n,
    decreases n,
{
    let cur = removed_columns(seams, n, r, w);
    let kept_now = |c: int| cur.contains(c);
    if n == 0 {
        assert forall|c: int| 0 <= c < w implies !#[trigger] kept_now(c) by {}
        lemma_kept_all(kept_now, w);
    } else {
        lemma_removed_columns(seams, n - 1, r, w);
        let prev = removed_columns(seams, n - 1, r, w);
        let before = |c: int| prev.contains(c);
        let x = seam_x(seams, n - 1, r);
        assert(x < w - (n - 1));
        lemma_kept_range(before, w);
        lemma_kept_not_removed(before, w);
        let t = kept_columns(before, w)[x];
        assert(cur == prev.push(t));
        assert(!before(t));
        assert forall|d: int| #[trigger] kept_now(d) == (before(d) || d == t) by {
            if cur.contains(d) {
                let k = choose|k: int| 0 <= k < cur.len() && cur[k] == d;
                if k < n - 1 {
                    assert(prev[k] == d);
                }
            }
            if prev.contains(d) {
                let k = choose|k: int| 0 <= k < prev.len() && prev[k] == d;
                assert(cur[k] == d);
            }
            if d == t {
                assert(cur[n - 1] == d);
            }
        }
        lemma_removed_count_insert(before, kept_now, t, w);
        lemma_kept_count(before, w);
        lemma_kept_count(kept_now, w);
        assert forall|k: int| 0 <= k < n implies 0 <= #[trigger] cur[k] < w by {
            if k < n - 1 {
                assert(cur[k] == prev[k]);
            }
        }
        assert forall|k1: int, k2: int| 0 <= k1 < cur.len() && 0 <= k2 < cur.len() && k1 != k2 implies cur[k1] != cur[k2] by {
            if k1 < n - 1 && k2 < n - 1 {
                assert(cur[k1] == prev[k1] && cur[k2] == prev[k2]);
            } else if k1 < n - 1 {
                assert(cur[k1] == prev[k1]);
                assert(prev.contains(prev[k1]));
            } else if k2 < n - 1 {
                assert(cur[k2] == prev[k2]);
                assert(prev.contains(prev[k2]));
            }
        }
    }
}

/// The columns taken out by the first seams do not change as more seams follow.
pub proof fn lemma_removed_columns_prefix(seams: Seq<VerticalSeam>, n: int, i: int, r: int, w: int)
    requires
        0 <= i < n,
    ensures
        removed_columns(seams, n, r, w).len() == n,
        removed_columns(seams, n, r, w)[i] == removed_columns(seams, i + 1, r, w)[i],
    decreases n,
{
    if n > i + 1 {
        lemma_removed_columns_prefix(seams, n - 1, i, r, w);
    } else {
        lemma_removed_columns_len(seams, n, r, w);
    }
    lemma_removed_columns_len(seams, n, r, w);
}

proof fn lemma_removed_columns_len(seams: Seq<VerticalSeam>, n: int, r: int, w: int)
    requires
        0 <= n,
    ensures
        removed_columns(seams, n, r, w).len() == n,
    decreases n,
{
    if n > 0 {
        lemma_removed_columns_len(seams, n - 1, r, w);
    }
}

/// The column at which entry `r` of seam `i` is drawn on a `w`-wide image:
/// when the seams were removed one after another, the column of the original
/// image that it took out; otherwise its own entry.
pub open spec fn drawn_x(seams: Seq<VerticalSeam>, removed_individually: bool, i: int, r: int, w: int) -> int {
    if removed_individually {
        removed_columns(seams, i + 1, r, w)[i]
    } else {
        seam_x(seams, i, r)
    }
}

/// Column `x` of the row of entry `r` lies on one of the seams `0..n`.
pub open spec fn on_seam(seams: Seq<VerticalSeam>, removed_individually: bool, n: int, r: int, x: int, w: int) -> bool {
    exists|i: int| 0 <= i < n && #[trigger] drawn_x(seams, removed_individually, i, r, w) == x
}

/// Pixel `(x, y)` is drawn once seams `0..i` and the entries `0..r` of seam
/// `i` have been drawn.
pub open spec fn drawn_so_far(
    seams: Seq<VerticalSeam>,
    removed_individually: bool,
    i: int,
    r: int,
    h: int,
    x: int,
    y: int,
    w: int,
) -> bool {
    ||| on_seam(seams, removed_individually, i, h - 1 - y, x, w)
    ||| (h - 1 - y < r && drawn_x(seams, removed_individually, i, h - 1 - y, w) == x)
}

/// The RGBA pixel at column `x`, row `y` of a buffer of `w`-pixel rows.
pub open spec fn pixel_rgba(d: Seq<u8>, w: int, x: int, y: int) -> (u8, u8, u8, u8) {
    rgba_at(d, y * w + x)
}

/// Drawing seams that were removed one after another marks the same pixels as
/// drawing, in the original coordinate space, the columns they took out: when
/// entry `r` of each seam of `original` is the column that removing the seams
/// of `removed` one after another took out (see [`removed_columns`]), column
/// `x` of that row is on a seam in one drawing exactly when it is in the other.
pub proof fn lemma_drawn_in_original_coordinates(
    removed: Seq<VerticalSeam>,
    original: Seq<VerticalSeam>,
    r: int,
    x: int,
    w: int,
)
    requires
        removed.len() == original.len(),
        forall|i: int|
            0 <= i < removed.len() ==> #[trigger] seam_x(original, i, r)
                == removed_columns(removed, removed.len() as int, r, w)[i],
    ensures
        on_seam(removed, true, removed.len() as int, r, x, w) == on_seam(original, false, original.len() as int, r, x, w),
{
    let n = removed.len() as int;
    if on_seam(removed, true, n, r, x, w) {
        let i = choose|i: int| 0 <= i < n && #[trigger] drawn_x(removed, true, i, r, w) == x;
        lemma_removed_columns_prefix(removed, n, i, r, w);
        assert(seam_x(original, i, r) == removed_columns(removed, n, r, w)[i]);
        assert(drawn_x(original, false, i, r, w) == x);
    }
    if on_seam(original, false, n, r, x, w) {
        let i = choose|i: int| 0 <= i < n && #[trigger] drawn_x(original, false, i, r, w) == x;
        lemma_removed_columns_prefix(removed, n, i, r, w);
        assert(seam_x(original, i, r) == removed_columns(removed, n, r, w)[i]);
        assert(drawn_x(removed, true, i, r, w) == x);
    }
}

/// The pixels of `image` converted to RGBA, four subpixels each.
fn rgba_buffer(image: &Image<u8>) -> (buf: Vec<u8>)
    ensures
        buf@.len() == 4 * (image@.width * image@.height),
        forall|k: int| 0 <= k < image@.width * image@.height ==> #[trigger] rgba_at(buf@, k) == image@.rgba(k),
{
    let n = image.pixel_count();
    let mut buf: Vec<u8> = Vec::new();
    let mut k: usize = 0;
    while k < n
        invariant
            n == image@.width * image@.height,
            0 <= k <= n,
            buf@.len() == 4 * k,
            forall|j: int| 0 <= j < k ==> #[trigger] rgba_at(buf@, j) == image@.rgba(j),
        decreases n - k,
    {
        let p = image.pixel_rgba(k);
        let ghost before = buf@;
        buf.push(p.0);
        buf.push(p.1);
        buf.push(p.2);
        buf.push(p.3);
        proof {
            assert forall|j: int| 0 <= j < k + 1 implies #[trigger] rgba_at(buf@, j) == image@.rgba(j) by {
                if j < k {
                    assert(rgba_at(before, j) == image@.rgba(j));
                }
            }
        }
        k = k + 1;
    }
    buf
}

/// Draws a series of `seams` on `image` in red, on the image converted to RGBA.
///
/// If `removed_individually` is true, the seams are taken to have been removed
/// one by one in the given order from `image`, each from the image the earlier
/// ones left; each is drawn at the columns of `image` it took out (see
/// [`removed_columns`]). Otherwise the seam coordinates refer to the original
/// `image` coordinate space.
#[verifier::spinoff_prover]
#[verifier::rlimit(30)]
pub fn draw_vertical_seams(image: &Image<u8>, seams: &[VerticalSeam], removed_individually: bool) -> (out: Image<u8>)
    requires
        forall|i: int| 0 <= i < seams@.len() ==> (#[trigger] seams@[i]).0@.len() == image@.height,
        forall|i: int, r: int|
            0 <= i < seams@.len() && 0 <= r < image@.height ==> #[trigger] seam_x(seams@, i, r)
                < image@.width - if removed_individually { i } else { 0 },
    ensures
        out@.width == image@.width,
        out@.height == image@.height,
        out@.layout == ColorLayout::Rgba,
        forall|x: int, y: int|
            0 <= x < image@.width && 0 <= y < image@.height ==> #[trigger] pixel_rgba(out@.data, image@.width as int, x, y)
                == if on_seam(seams@, removed_individually, seams@.len() as int, image@.height - 1 - y, x, image@.width as int) {
                red()
            } else {
                image@.rgba(y * image@.width + x)
            },
{
    proof { use_type_invariant(image); }
    let (width, height) = image.dimensions();
    let w = width as usize;
    let h = height as usize;
    let npx = image.pixel_count();
    let ghost iv = image@;
    let ghost sv = seams@;
    let ghost wi = w as int;
    let ghost hi = h as int;
    let ghost ind = removed_individually;
    let mut buf = rgba_buffer(image);
    // taken[y * w + c]: column c of row y was taken out by one of the seams drawn so far.
    let mut taken: Vec<bool> = Vec::new();
    let mut k: usize = 0;
    while k < npx
        invariant
            0 <= k <= npx,
            taken@.len() == k,
            forall|j: int| 0 <= j < k ==> !#[trigger] taken@[j],
        decreases npx - k,
    {
        taken.push(false);
        k = k + 1;
    }
    let ns = seams.len();
    proof {
        assert forall|x: int, y: int| 0 <= x < wi && 0 <= y < hi implies #[trigger] pixel_rgba(buf@, wi, x, y)
            == if on_seam(sv, ind, 0, hi - 1 - y, x, wi) { red() } else { iv.rgba(y * wi + x) } by {
            lemma_plane_index(wi, hi, x, y);
        }
        assert forall|yy: int, c: int| 0 <= yy < hi && 0 <= c < wi implies #[trigger] taken@[yy * wi + c]
            == removed_columns(sv, 0, hi - 1 - yy, wi).contains(c) by {
            lemma_plane_index(wi, hi, c, yy);
        }
    }
    let mut i: usize = 0;
    while i < ns
        invariant
            iv == image@,
            sv == seams@,
            ind == removed_individually,
            wi == w,
            hi == h,
            w == iv.width,
            h == iv.height,
            npx == w * h,
            iv.wf(),
            ns == sv.len(),
            0 <= i <= ns,
            buf@.len() == 4 * (wi * hi),
            taken@.len() == npx,
            forall|ii: int| 0 <= ii < sv.len() ==> (#[trigger] sv[ii]).0@.len() == hi,
            forall|ii: int, r: int|
                0 <= ii < sv.len() && 0 <= r < hi ==> #[trigger] seam_x(sv, ii, r) < wi - if ind { ii } else { 0 },
            ind ==> forall|yy: int, c: int| 0 <= yy < hi && 0 <= c < wi ==> #[trigger] taken@[yy * wi + c]
                == removed_columns(sv, i as int, hi - 1 - yy, wi).contains(c),
            forall|x: int, y: int| 0 <= x < wi && 0 <= y < hi ==> #[trigger] pixel_rgba(buf@, wi, x, y)
                == if on_seam(sv, ind, i as int, hi - 1 - y, x, wi) { red() } else { iv.rgba(y * wi + x) },
        decreases ns - i,
    {
        let mut r: usize = 0;
        while r < h
            invariant
                iv == image@,
                sv == seams@,
                ind == removed_individually,
                wi == w,
                hi == h,
                w == iv.width,
                h == iv.height,
                npx == w * h,
                iv.wf(),
                ns == sv.len(),
                0 <= i < ns,
                0 <= r <= h,
                buf@.len() == 4 * (wi * hi),
                taken@.len() == npx,
                forall|ii: int| 0 <= ii < sv.len() ==> (#[trigger] sv[ii]).0@.len() == hi,
                forall|ii: int, rr: int|
                    0 <= ii < sv.len() && 0 <= rr < hi ==> #[trigger] seam_x(sv, ii, rr) < wi - if ind { ii } else { 0 },
                ind ==> forall|yy: int, c: int| 0 <= yy < hi && 0 <= c < wi ==> #[trigger] taken@[yy * wi + c]
                    == removed_columns(sv, if hi - 1 - yy < r { i + 1 } else { i as int }, hi - 1 - yy, wi).contains(c),
                forall|x: int, y: int| 0 <= x < wi && 0 <= y < hi ==> #[trigger] pixel_rgba(buf@, wi, x, y)
                    == if drawn_so_far(sv, ind, i as int, r as int, hi, x, y, wi) { red() } else { iv.rgba(y * wi + x) },
            decreases h - r,
        {
            let y = h - 1 - r;
            let x = seams[i].0[r] as usize;
            proof {
                assert(seam_x(sv, i as int, r as int) < wi - if ind { i as int } else { 0 });
                lemma_plane_index(wi, hi, 0, y as int);
            }
            let base = y * w;
            let mut col = x;
            if removed_individually {
                let ghost prev = removed_columns(sv, i as int, r as int, wi);
                let ghost before = |c: int| prev.contains(c);
                proof {
                    assert forall|j: int| 0 <= j < i implies #[trigger] seam_x(sv, j, r as int) < wi - j by {
                        assert(seam_x(sv, j, r as int) < wi - if ind { j } else { 0 });
                    }
                    lemma_removed_columns(sv, i as int, r as int, wi);
                    assert(x < kept_columns(before, wi).len());
                    assert forall|c: int| 0 <= c < wi implies #[trigger] taken@[base + c] == before(c) by {
                        assert(taken@[y * wi + c] == removed_columns(sv, i as int, hi - 1 - y, wi).contains(c));
                    }
                }
                // Find the column numbered `x` among those the earlier seams left.
                let mut c: usize = 0;
                let mut cnt: usize = 0;
                while c < w
                    invariant_except_break
                        cnt <= x,
                    invariant
                        0 <= c <= w,
                        wi == w,
                        x < kept_columns(before, wi).len(),
                        cnt == kept_columns(before, c as int).len(),
                        base + w <= taken@.len(),
                        taken@.len() == npx,
                        forall|cc: int| 0 <= cc < wi ==> #[trigger] taken@[base + cc] == before(cc),
                    ensures
                        c < w,
                        cnt == x,
                        !before(c as int),
                    decreases w - c,
                {
                    let free = !taken[base + c];
                    if free && cnt == x {
                        break;
                    }
                    if free {
                        cnt = cnt + 1;
                    }
                    c = c + 1;
                }
                proof {
                    lemma_kept_index(before, c as int, wi);
                    lemma_removed_columns_len(sv, i as int, r as int, wi);
                    assert(removed_columns(sv, i + 1, r as int, wi) == prev.push(kept_columns(before, wi)[x as int]));
                }
                col = c;
                let ghost old_taken = taken@;
                taken.set(base + c, true);
                proof {
                    let next = removed_columns(sv, i + 1, r as int, wi);
                    assert(next == prev.push(c as int));
                    assert forall|yy: int, cc: int| 0 <= yy < hi && 0 <= cc < wi implies #[trigger] taken@[yy * wi + cc]
                        == removed_columns(sv, if hi - 1 - yy < r + 1 { i + 1 } else { i as int }, hi - 1 - yy, wi).contains(cc) by {
                        lemma_plane_index(wi, hi, cc, yy);
                        if yy == y {
                            assert(taken@[yy * wi + cc] == (old_taken[yy * wi + cc] || cc == c));
                            if next.contains(cc) {
                                let q = choose|q: int| 0 <= q < next.len() && next[q] == cc;
                                if q < i {
                                    assert(prev[q] == cc);
                                }
                            }
                            if prev.contains(cc) {
                                let q = choose|q: int| 0 <= q < prev.len() && prev[q] == cc;
                                assert(next[q] == cc);
                            }
                            if cc == c {
                                assert(next[i as int] == cc);
                            }
                        } else {
                            lemma_plane_distinct(wi, cc, yy, c as int, y as int);
                            assert(taken@[yy * wi + cc] == old_taken[yy * wi + cc]);
                        }
                    }
                }
            }
            proof {
                assert(col == drawn_x(sv, ind, i as int, r as int, wi));
                assert(col < wi);
                lemma_plane_index(wi, hi, col as int, y as int);
            }
            let ghost before_buf = buf@;
            set_rgba(&mut buf, base + col, (255u8, 0u8, 0u8, 255u8));
            proof {
                assert forall|xx: int, yy: int| 0 <= xx < wi && 0 <= yy < hi implies #[trigger] pixel_rgba(buf@, wi, xx, yy)
                    == if drawn_so_far(sv, ind, i as int, r + 1, hi, xx, yy, wi) { red() } else { iv.rgba(yy * wi + xx) } by {
                    lemma_plane_index(wi, hi, xx, yy);
                    if xx != col || yy != y {
                        lemma_plane_distinct(wi, xx, yy, col as int, y as int);
                        assert(pixel_rgba(before_buf, wi, xx, yy) == pixel_rgba(buf@, wi, xx, yy));
                    }
                }
            }
            r = r + 1;
        }
        proof {
            assert forall|x: int, y: int| 0 <= x < wi && 0 <= y < hi implies
                (drawn_so_far(sv, ind, i as int, hi, hi, x, y, wi) == on_seam(sv, ind, i + 1, hi - 1 - y, x, wi)) by {
                if on_seam(sv, ind, i + 1, hi - 1 - y, x, wi) {
                    let ii = choose|ii: int| 0 <= ii < i + 1 && #[trigger] drawn_x(sv, ind, ii, hi - 1 - y, wi) == x;
                    if ii < i {
                        assert(on_seam(sv, ind, i as int, hi - 1 - y, x, wi));
                    }
                }
                if on_seam(sv, ind, i as int, hi - 1 - y, x, wi) {
                    let ii = choose|ii: int| 0 <= ii < i && #[trigger] drawn_x(sv, ind, ii, hi - 1 - y, wi) == x;
                    assert(drawn_x(sv, ind, ii, hi - 1 - y, wi) == x);
                }
            }
        }
        i = i + 1;
    }
    proof {
        assert(wi * hi * 4 == 4 * (wi * hi));
    }
    Image::from_parts(width, height, ColorLayout::Rgba, buf)
}

/// The lowest energy among the seams `ids` (`u64::MAX` when there are none).
pub open spec fn lowest_energy_of(e: Seq<u64>, ids: Seq<usize>) -> int
    decreases ids.len(),
{
    if ids.len() == 0 {
        u64::MAX as int
    } else {
        let m = lowest_energy_of(e, ids.drop_last());
        let x = e[ids.last() as int] as int;
        if x < m { x } else { m }
    }
}

/// The highest energy among the seams `ids` (`0` when there are none).
pub open spec fn highest_energy_of(e: Seq<u64>, ids: Seq<usize>) -> int
    decreases ids.len(),
{
    if ids.len() == 0 {
        0
    } else {
        let m = highest_energy_of(e, ids.drop_last());
        let x = e[ids.last() as int] as int;
        if x > m { x } else { m }
    }
}

/// The colour of seam `s` among the seams `ids`: green when all have the same
/// energy, otherwise from green (lowest) through yellow to red (highest).
pub open spec fn energy_color(e: Seq<u64>, ids: Seq<usize>, s: int) -> (u8, u8, u8, u8) {
    let lo = lowest_energy_of(e, ids);
    let hi = highest_energy_of(e, ids);
    if lo == hi {
        (0u8, 255u8, 0u8, 255u8)
    } else {
        let position = (e[s] - lo) * 510 / (hi - lo);
        if position <= 255 {
            (position as u8, 255u8, 0u8, 255u8)
        } else {
            (255u8, (510 - position) as u8, 0u8, 255u8)
        }
    }
}

/// The lowest and highest energies are among those of `ids`, and bound them.
proof fn lemma_energy_range(e: Seq<u64>, ids: Seq<usize>)
    requires
        forall|i: int| 0 <= i < ids.len() ==> #[trigger] ids[i] < e.len(),
    ensures
        forall|i: int| 0 <= i < ids.len() ==> lowest_energy_of(e, ids) <= #[trigger] e[ids[i] as int]
            <= highest_energy_of(e, ids),
        ids.len() > 0 ==> 0 <= lowest_energy_of(e, ids) <= highest_energy_of(e, ids),
        0 <= highest_energy_of(e, ids) <= u64::MAX,
        lowest_energy_of(e, ids) <= u64::MAX,
        ids.len() > 0 ==> exists|i: int| 0 <= i < ids.len() && e[ids[i] as int] == highest_energy_of(e, ids),
        ids.len() > 0 ==> exists|i: int| 0 <= i < ids.len() && e[ids[i] as int] == lowest_energy_of(e, ids),
    decreases ids.len(),
{
    if ids.len() > 0 {
        let init = ids.drop_last();
        lemma_energy_range(e, init);
        assert forall|i: int| 0 <= i < ids.len() implies lowest_energy_of(e, ids) <= #[trigger] e[ids[i] as int]
            <= highest_energy_of(e, ids) by {
            if i < init.len() {
                assert(ids[i] == init[i]);
            }
        }
        if init.len() > 0 {
            let i = choose|i: int| 0 <= i < init.len() && e[init[i] as int] == highest_energy_of(e, init);
            assert(ids[i] == init[i]);
            let j = choose|j: int| 0 <= j < init.len() && e[init[j] as int] == lowest_energy_of(e, init);
            assert(ids[j] == init[j]);
        }
        assert(e[ids[ids.len() - 1] as int] == e[ids.last() as int]);
    }
}

/// The column, in row `y`, crossed by the `count` lowest-energy seams of `v`
/// gets the colour of the seam that crosses it ([`energy_color`]); every
/// other pixel keeps its colour.
pub open spec fn energy_drawing(img: ImageView<u8>, v: SeamsView, count: int, x: int, y: int) -> (u8, u8, u8, u8) {
    let ids = lowest_seams(v.energies, count);
    if crossed(v, ids, x, y) {
        let i = choose|i: int| 0 <= i < ids.len() && v.position(ids[i] as int, y) == x;
        energy_color(v.energies, ids, ids[i] as int)
    } else {
        img.rgba(y * img.width + x)
    }
}

/// A pixel crossed by one of the `count` lowest-energy seams of `v`, seam
/// `ids[a]`, gets its colour from where that seam's energy lies between the
/// lowest (`ids[l]`) and the highest (`ids[m]`) energy of the drawn seams.
proof fn lemma_energy_drawing_colour(img: ImageView<u8>, v: SeamsView, count: int, x: int, y: int, a: int, l: int, m: int)
    requires
        v.wf(),
        0 <= y < img.height,
        v.deltas.len() == v.width * (if img.height > 0 { img.height - 1 } else { 0 }),
        is_lowest_selection(v.energies, count, lowest_seams(v.energies, count)),
        0 <= a < lowest_seams(v.energies, count).len(),
        0 <= l < lowest_seams(v.energies, count).len(),
        0 <= m < lowest_seams(v.energies, count).len(),
        v.position(lowest_seams(v.energies, count)[a] as int, y) == x,
        forall|j: int| 0 <= j < lowest_seams(v.energies, count).len() ==>
            v.energies[lowest_seams(v.energies, count)[l] as int] <= #[trigger] v.energies[lowest_seams(v.energies, count)[j] as int]
                <= v.energies[lowest_seams(v.energies, count)[m] as int],
    ensures
        0 <= x < v.width,
        ({
            let ids = lowest_seams(v.energies, count);
            let energy = v.energies[ids[a] as int] as int;
            let lo = v.energies[ids[l] as int] as int;
            let hi = v.energies[ids[m] as int] as int;
            let p = (energy - lo) * 510 / (hi - lo);
            &&& lo == hi ==> energy_drawing(img, v, count, x, y) == (0u8, 255u8, 0u8, 255u8)
            &&& lo < hi && p <= 255 ==> energy_drawing(img, v, count, x, y) == (p as u8, 255u8, 0u8, 255u8)
            &&& lo < hi && p > 255 ==> energy_drawing(img, v, count, x, y) == (255u8, (510 - p) as u8, 0u8, 255u8)
        }),
{
    let ids = lowest_seams(v.energies, count);
    let e = v.energies;
    let w = v.width as int;
    let h = img.height as int;
    assert(ids[a] < e.len());
    assert((h - 1) * w == w * (h - 1)) by (nonlinear_arith);
    crate::carve::lemma_cancel(v.height - 1, h - 1, w);
    lemma_swap_rows_fewer(v.deltas, w, v.height - 1, y);
    lemma_position_range(v.deltas, w, ids[a] as int, y);
    assert(crossed(v, ids, x, y));
    let i = choose|i: int| 0 <= i < ids.len() && v.position(ids[i] as int, y) == x;
    assert(ids[i] < e.len() && ids[a] < e.len());
    lemma_position_injective(v.deltas, w, ids[i] as int, ids[a] as int, y);
    assert(ids[i] == ids[a]);
    lemma_energy_range(e, ids);
    let lo = lowest_energy_of(e, ids);
    let hi = highest_energy_of(e, ids);
    let jl = choose|j: int| 0 <= j < ids.len() && e[ids[j] as int] == lo;
    let jh = choose|j: int| 0 <= j < ids.len() && e[ids[j] as int] == hi;
    assert(e[ids[l] as int] <= e[ids[jl] as int]);
    assert(e[ids[jh] as int] <= e[ids[m] as int]);
    assert(lo <= e[ids[l] as int]);
    assert(e[ids[m] as int] <= hi);
}

/// The colours of [`draw_vertical_seams_by_energy`], stated against the seam
/// energies: a pixel `(x, y)` of its result `d` crossed by the drawn seam
/// `ids[a]` (of energy `E`), where `ids[l]` and `ids[m]` are drawn seams of the
/// lowest and highest energy `lo` and `hi`, is green `(0, 255, 0)` when
/// `lo == hi`; otherwise, with `p = (E - lo) * 510 / (hi - lo)`, it is
/// `(p, 255, 0)` (green to yellow) for `p <= 255` and `(255, 510 - p, 0)`
/// (yellow to red) above. The requirements on `d` are what
/// [`draw_vertical_seams_by_energy`] ensures of its result.
pub proof fn lemma_energy_colours(
    img: ImageView<u8>,
    v: SeamsView,
    count: int,
    d: Seq<u8>,
    x: int,
    y: int,
    a: int,
    l: int,
    m: int,
)
    requires
        v.wf(),
        v.energies.len() == img.width,
        v.deltas.len() == v.width * (if img.height > 0 { img.height - 1 } else { 0 }),
        is_lowest_selection(v.energies, count, lowest_seams(v.energies, count)),
        forall|xx: int, yy: int|
            0 <= xx < img.width && 0 <= yy < img.height ==> #[trigger] pixel_rgba(d, img.width as int, xx, yy)
                == energy_drawing(img, v, count, xx, yy),
        0 <= y < img.height,
        0 <= a < lowest_seams(v.energies, count).len(),
        0 <= l < lowest_seams(v.energies, count).len(),
        0 <= m < lowest_seams(v.energies, count).len(),
        v.position(lowest_seams(v.energies, count)[a] as int, y) == x,
        forall|j: int| 0 <= j < lowest_seams(v.energies, count).len() ==>
            v.energies[lowest_seams(v.energies, count)[l] as int] <= #[trigger] v.energies[lowest_seams(v.energies, count)[j] as int]
                <= v.energies[lowest_seams(v.energies, count)[m] as int],
    ensures
        0 <= x < img.width,
        ({
            let ids = lowest_seams(v.energies, count);
            let energy = v.energies[ids[a] as int] as int;
            let lo = v.energies[ids[l] as int] as int;
            let hi = v.energies[ids[m] as int] as int;
            let p = (energy - lo) * 510 / (hi - lo);
            let pixel = pixel_rgba(d, img.width as int, x, y);
            &&& lo == hi ==> pixel == (0u8, 255u8, 0u8, 255u8)
            &&& lo < hi && p <= 255 ==> pixel == (p as u8, 255u8, 0u8, 255u8)
            &&& lo < hi && p > 255 ==> pixel == (255u8, (510 - p) as u8, 0u8, 255u8)
        }),
{
    lemma_energy_drawing_colour(img, v, count, x, y, a, l, m);
    assert(pixel_rgba(d, img.width as int, x, y) == energy_drawing(img, v, count, x, y));
}

/// Draws the `count` lowest-energy vertical seams on `image` (converted to
/// RGBA), colouring them by total seam energy: lower-energy seams in green,
/// mid-range seams in yellow, and higher-energy seams in red.
///
/// With `lo` and `hi` the lowest and highest energy among the drawn seams, a
/// seam of energy `E` sits at `p = (E - lo) * 510 / (hi - lo)` on a ramp that
/// runs from green `(0, 255, 0)` at `p = 0` through yellow `(255, 255, 0)` at
/// `p = 255` to red `(255, 0, 0)` at `p = 510`: red rises first, then green
/// falls. When all drawn seams have the same energy they are green. (See
/// [`lemma_energy_colours`].)
#[verifier::spinoff_prover]
#[verifier::rlimit(30)]
pub fn draw_vertical_seams_by_energy(image: &Image<u8>, vertical_seams: &VerticalSeams, count: usize) -> (out: Image<u8>)
    requires
        vertical_seams@.energies.len() == image@.width,
        vertical_seams@.deltas.len() == image@.width * (if image@.height > 0 { image@.height - 1 } else { 0 }),
    ensures
        out@.width == image@.width,
        out@.height == image@.height,
        out@.layout == ColorLayout::Rgba,
        is_lowest_selection(vertical_seams@.energies, count as int, lowest_seams(vertical_seams@.energies, count as int)),
        forall|x: int, y: int|
            0 <= x < image@.width && 0 <= y < image@.height ==> #[trigger] pixel_rgba(out@.data, image@.width as int, x, y)
                == energy_drawing(image@, vertical_seams@, count as int, x, y),
{
    proof {
        use_type_invariant(image);
        use_type_invariant(vertical_seams);
    }
    let (width, height) = image.dimensions();
    let w = width as usize;
    let h = height as usize;
    let npx = image.pixel_count();
    let ghost iv = image@;
    let ghost v = vertical_seams@;
    let ghost wi = w as int;
    let ghost hi = h as int;
    let ghost k = count as int;
    let mut buf = rgba_buffer(image);
    let seam_ids = vertical_seams.lowest_energy_seams(count);
    let ghost ids = seam_ids@;
    if seam_ids.len() == 0 {
        proof {
            assert forall|x: int, y: int| 0 <= x < wi && 0 <= y < hi implies #[trigger] pixel_rgba(buf@, wi, x, y)
                == energy_drawing(iv, v, k, x, y) by {
                lemma_plane_index(wi, hi, x, y);
            }
            assert(wi * hi * 4 == 4 * (wi * hi));
        }
        return Image::from_parts(width, height, ColorLayout::Rgba, buf);
    }
    let e = vertical_seams.seam_energies();
    let n_ids = seam_ids.len();
    let mut min_energy: u64 = u64::MAX;
    let mut max_energy: u64 = u64::MIN;
    let mut t: usize = 0;
    while t < n_ids
        invariant
            ids == seam_ids@,
            e@ == v.energies,
            n_ids == ids.len(),
            is_lowest_selection(v.energies, k, ids),
            0 <= t <= n_ids,
            min_energy == lowest_energy_of(e@, ids.subrange(0, t as int)),
            max_energy == highest_energy_of(e@, ids.subrange(0, t as int)),
        decreases n_ids - t,
    {
        let energy = e[seam_ids[t]];
        proof {
            assert(ids.subrange(0, t + 1).drop_last() =~= ids.subrange(0, t as int));
        }
        if energy < min_energy {
            min_energy = energy;
        }
        if energy > max_energy {
            max_energy = energy;
        }
        t = t + 1;
    }
    proof {
        assert(ids.subrange(0, n_ids as int) =~= ids);
        lemma_energy_range(e@, ids);
    }
    let range = max_energy - min_energy;
    let mut seams: Vec<(usize, (u8, u8, u8, u8))> = Vec::new();
    let mut t: usize = 0;
    while t < n_ids
        invariant
            ids == seam_ids@,
            e@ == v.energies,
            v.wf(),
            n_ids == ids.len(),
            is_lowest_selection(v.energies, k, ids),
            min_energy == lowest_energy_of(e@, ids),
            max_energy == highest_energy_of(e@, ids),
            range == max_energy - min_energy,
            forall|i: int| 0 <= i < ids.len() ==> lowest_energy_of(e@, ids) <= #[trigger] e@[ids[i] as int]
                <= highest_energy_of(e@, ids),
            0 <= t <= n_ids,
            seams@.len() == t,
            forall|i: int| 0 <= i < t ==> #[trigger] seams@[i] == (ids[i], energy_color(e@, ids, ids[i] as int)),
        decreases n_ids - t,
    {
        let start_x = seam_ids[t];
        proof {
            assert(e@[ids[t as int] as int] <= crate::energy::max_energy() * v.height);
            assert(v.height <= u32::MAX);
            assert(crate::energy::max_energy() * v.height <= 510 * 0xffff_ffff);
        }
        let color = if min_energy == max_energy {
            (0u8, 255u8, 0u8, 255u8)
        } else {
            let energy = e[start_x] - min_energy;
            let position = (energy * 510) / range;
            proof {
                assert(energy <= range);
                assert(energy * 510 <= range * 510);
                let (ei, ri) = (energy as int, range as int);
                assert((ei * 510) / ri <= 510) by (nonlinear_arith)
                    requires
                        0 <= ei <= ri,
                        ri > 0,
                ;
            }
            if position <= 255 {
                (position as u8, 255u8, 0u8, 255u8)
            } else {
                (255u8, (510 - position) as u8, 0u8, 255u8)
            }
        };
        seams.push((start_x, color));
        t = t + 1;
    }
    proof {
        if h > 0 {
            assert(ids[0] < wi);
            assert(wi * (hi - 1) == (hi - 1) * wi) by (nonlinear_arith);
            crate::carve::lemma_cancel(v.height - 1, hi - 1, wi);
        }
        assert forall|q: (usize, (u8, u8, u8, u8))|
            #[trigger] seams@.contains(q) <==> exists|i: int|
                0 <= i < n_ids && q == (v.position(ids[i] as int, 0) as usize, energy_color(e@, ids, ids[i] as int)) by {
            if seams@.contains(q) {
                let a = choose|a: int| 0 <= a < seams@.len() && seams@[a] == q;
                assert(q == (v.position(ids[a] as int, 0) as usize, energy_color(e@, ids, ids[a] as int)));
            }
            if exists|i: int| 0 <= i < n_ids && q == (v.position(ids[i] as int, 0) as usize, energy_color(e@, ids, ids[i] as int)) {
                let i = choose|i: int| 0 <= i < n_ids && q == (v.position(ids[i] as int, 0) as usize, energy_color(e@, ids, ids[i] as int));
                assert(seams@[i] == q);
            }
        }
        assert forall|x: int, y: int| 0 <= x < wi && 0 <= y < hi implies #[trigger] pixel_rgba(buf@, wi, x, y)
            == iv.rgba(y * wi + x) by {
            lemma_plane_index(wi, hi, x, y);
        }
    }
    let ghost colors = |s: int| energy_color(e@, ids, s);
    let mut y: usize = 0;
    while y < h
        invariant
            iv == image@,
            v == vertical_seams@,
            iv.wf(),
            v.wf(),
            wi == w,
            hi == h,
            w == iv.width,
            h == iv.height,
            w == v.width,
            h > 0 ==> h == v.height,
            npx == w * h,
            buf@.len() == 4 * (wi * hi),
            ids == lowest_seams(v.energies, k),
            is_lowest_selection(v.energies, k, ids),
            e@ == v.energies,
            n_ids == ids.len(),
            0 <= y <= h,
            seams@.len() == n_ids,
            sorted_columns(seams@, wi),
            y < h ==> forall|q: (usize, (u8, u8, u8, u8))|
                #[trigger] seams@.contains(q) <==> exists|i: int|
                    0 <= i < n_ids && q == (v.position(ids[i] as int, y as int) as usize, energy_color(e@, ids, ids[i] as int)),
            forall|x: int, yy: int| 0 <= x < wi && 0 <= yy < hi ==> #[trigger] pixel_rgba(buf@, wi, x, yy)
                == if yy < y { energy_drawing(iv, v, k, x, yy) } else { iv.rgba(yy * wi + x) },
        decreases h - y,
    {
        let mut j: usize = 0;
        while j < n_ids
            invariant
                wi == w,
                hi == h,
                npx == w * h,
                0 <= y < h,
                buf@.len() == 4 * (wi * hi),
                seams@.len() == n_ids,
                sorted_columns(seams@, wi),
                0 <= j <= n_ids,
                forall|x: int, yy: int| 0 <= x < wi && 0 <= yy < hi && yy != y ==> #[trigger] pixel_rgba(buf@, wi, x, yy)
                    == if yy < y { energy_drawing(iv, v, k, x, yy) } else { iv.rgba(yy * wi + x) },
                forall|jj: int| 0 <= jj < j ==> #[trigger] pixel_rgba(buf@, wi, seams@[jj].0 as int, y as int) == seams@[jj].1,
                forall|x: int| 0 <= x < wi && (forall|jj: int| 0 <= jj < j ==> #[trigger] seams@[jj].0 != x)
                    ==> #[trigger] pixel_rgba(buf@, wi, x, y as int) == iv.rgba(y * wi + x),
            decreases n_ids - j,
        {
            let (x, color) = seams[j];
            proof {
                assert(x < wi);
                lemma_plane_index(wi, hi, x as int, y as int);
            }
            let ghost before = buf@;
            set_rgba(&mut buf, y * w + x, color);
            proof {
                assert forall|xx: int, yy: int| 0 <= xx < wi && 0 <= yy < hi && (xx != x || yy != y) implies
                    #[trigger] pixel_rgba(buf@, wi, xx, yy) == pixel_rgba(before, wi, xx, yy) by {
                    lemma_plane_index(wi, hi, xx, yy);
                    lemma_plane_distinct(wi, xx, yy, x as int, y as int);
                }
                assert forall|jj: int| 0 <= jj < j + 1 implies #[trigger] pixel_rgba(buf@, wi, seams@[jj].0 as int, y as int)
                    == seams@[jj].1 by {
                    if jj < j {
                        assert(seams@[jj].0 < seams@[j as int].0);
                        assert(pixel_rgba(buf@, wi, seams@[jj].0 as int, y as int) == pixel_rgba(before, wi, seams@[jj].0 as int, y as int));
                    }
                }
                assert forall|xx: int| 0 <= xx < wi && (forall|jj: int| 0 <= jj < j + 1 ==> #[trigger] seams@[jj].0 != xx)
                    implies #[trigger] pixel_rgba(buf@, wi, xx, y as int) == iv.rgba(y * wi + xx) by {
                    assert(seams@[j as int].0 != xx);
                    assert(pixel_rgba(buf@, wi, xx, y as int) == pixel_rgba(before, wi, xx, y as int));
                }
            }
            j = j + 1;
        }
        proof {
            lemma_swap_rows_fewer(v.deltas, wi, v.height - 1, y as int);
            assert forall|x: int, yy: int| 0 <= x < wi && 0 <= yy < hi implies #[trigger] pixel_rgba(buf@, wi, x, yy)
                == if yy < y + 1 { energy_drawing(iv, v, k, x, yy) } else { iv.rgba(yy * wi + x) } by {
                if yy == y {
                    if crossed(v, ids, x, yy) {
                        let i = choose|i: int| 0 <= i < ids.len() && v.position(ids[i] as int, yy) == x;
                        let q = (x as usize, energy_color(e@, ids, ids[i] as int));
                        assert(seams@.contains(q));
                        let jj = choose|jj: int| 0 <= jj < seams@.len() && seams@[jj] == q;
                        assert(pixel_rgba(buf@, wi, seams@[jj].0 as int, y as int) == seams@[jj].1);
                    } else {
                        assert forall|jj: int| 0 <= jj < n_ids implies #[trigger] seams@[jj].0 != x by {
                            if seams@[jj].0 == x {
                                assert(seams@.contains(seams@[jj]));
                                let i = choose|i: int|
                                    0 <= i < n_ids && seams@[jj] == (v.position(ids[i] as int, y as int) as usize, energy_color(e@, ids, ids[i] as int));
                                lemma_position_range(v.deltas, wi, ids[i] as int, y as int);
                                assert(crossed(v, ids, x, yy));
                            }
                        }
                    }
                }
            }
        }
        if y + 1 < h {
            let ghost old_seams = seams@;
            vertical_seams.advance_seams(&mut seams, y);
            proof {
                assert forall|q: (usize, (u8, u8, u8, u8))|
                    #[trigger] seams@.contains(q) <==> exists|i: int|
                        0 <= i < n_ids && q == (v.position(ids[i] as int, y + 1) as usize, energy_color(e@, ids, ids[i] as int)) by {
                    if seams@.contains(q) {
                        let j = choose|j: int|
                            0 <= j < old_seams.len() && q.1 == old_seams[j].1
                                && q.0 == step_column(v, y as int, old_seams[j].0 as int);
                        assert(old_seams.contains(old_seams[j]));
                        let i = choose|i: int|
                            0 <= i < n_ids && old_seams[j] == (v.position(ids[i] as int, y as int) as usize, energy_color(e@, ids, ids[i] as int));
                        lemma_position_range(v.deltas, wi, ids[i] as int, y as int);
                        lemma_swap_rows_fewer(v.deltas, wi, v.height - 1, y + 1);
                        lemma_position_range(v.deltas, wi, ids[i] as int, y + 1);
                        assert(q == (v.position(ids[i] as int, y + 1) as usize, energy_color(e@, ids, ids[i] as int)));
                    }
                    if exists|i: int| 0 <= i < n_ids && q == (v.position(ids[i] as int, y + 1) as usize, energy_color(e@, ids, ids[i] as int)) {
                        let i = choose|i: int| 0 <= i < n_ids && q == (v.position(ids[i] as int, y + 1) as usize, energy_color(e@, ids, ids[i] as int));
                        let p = (v.position(ids[i] as int, y as int) as usize, energy_color(e@, ids, ids[i] as int));
                        assert(old_seams.contains(p));
                        let j = choose|j: int| 0 <= j < old_seams.len() && old_seams[j] == p;
                        lemma_position_range(v.deltas, wi, ids[i] as int, y as int);
                        lemma_swap_rows_fewer(v.deltas, wi, v.height - 1, y + 1);
                        lemma_position_range(v.deltas, wi, ids[i] as int, y + 1);
                        assert(q.0 == step_column(v, y as int, old_seams[j].0 as int));
                    }
                }
            }
        }
        y = y + 1;
    }
    proof {
        assert(wi * hi * 4 == 4 * (wi * hi));
    }
    Image::from_parts(width, height, ColorLayout::Rgba, buf)
}

} // verus!
