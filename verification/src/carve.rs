//! Removing seams from images.

use vstd::prelude::*;
use crate::image::{ColorLayout, Image, ImageView, lemma_subpixel_offset, lemma_plane_index};
use crate::seams::{
    VerticalSeams, SeamsView, VerticalSeam, is_lowest_selection, lowest_seams, sorted_columns, step_column,
    seam_position, row_of, swap_rows_before, lemma_position_range, lemma_position_injective, lemma_swap_rows_fewer,
    find_vertical_seams, image_seams,
};

verus! {

/// The columns `0..x` that `removed` leaves, in increasing order.
pub open spec fn kept_columns(removed: spec_fn(int) -> bool, x: int) -> Seq<int>
    decreases x,
{
    if x <= 0 {
        Seq::empty()
    } else if removed(x - 1) {
        kept_columns(removed, x - 1)
    } else {
        kept_columns(removed, x - 1).push(x - 1)
    }
}

/// Without removed columns in `a..b`, the columns kept below `b` are those kept
/// below `a` followed by `a..b`.
pub proof fn lemma_kept_span(removed: spec_fn(int) -> bool, a: int, b: int)
    requires
        0 <= a <= b,
        forall|x: int| a <= x < b ==> !#[trigger] removed(x),
    ensures
        kept_columns(removed, b) == kept_columns(removed, a) + Seq::new((b - a) as nat, |i: int| a + i),
    decreases b - a,
{
    if a < b {
        lemma_kept_span(removed, a, b - 1);
        assert(kept_columns(removed, b) =~= kept_columns(removed, a) + Seq::new((b - a) as nat, |i: int| a + i));
    } else {
        assert(kept_columns(removed, b) =~= kept_columns(removed, a) + Seq::new((b - a) as nat, |i: int| a + i));
    }
}

/// With nothing removed, every column is kept.
pub proof fn lemma_kept_all(removed: spec_fn(int) -> bool, x: int)
    requires
        0 <= x,
        forall|c: int| 0 <= c < x ==> !#[trigger] removed(c),
    ensures
        kept_columns(removed, x) == Seq::new(x as nat, |i: int| i),
{
    lemma_kept_span(removed, 0, x);
    assert(kept_columns(removed, x) =~= Seq::new(x as nat, |i: int| i));
}

/// Kept columns are increasing and below `x`.
pub proof fn lemma_kept_range(removed: spec_fn(int) -> bool, x: int)
    requires
        0 <= x,
    ensures
        kept_columns(removed, x).len() <= x,
        forall|i: int| 0 <= i < kept_columns(removed, x).len() ==> 0 <= #[trigger] kept_columns(removed, x)[i] < x,
        forall|i: int, j: int|
            0 <= i < j < kept_columns(removed, x).len() ==> kept_columns(removed, x)[i] < kept_columns(removed, x)[j],
    decreases x,
{
    if x > 0 {
        lemma_kept_range(removed, x - 1);
    }
}

/// The kept columns below `a` are the first of those below `b >= a`.
proof fn lemma_kept_prefix(removed: spec_fn(int) -> bool, a: int, b: int)
    requires
        0 <= a <= b,
    ensures
        kept_columns(removed, a).len() <= kept_columns(removed, b).len(),
        forall|k: int| 0 <= k < kept_columns(removed, a).len() ==>
            #[trigger] kept_columns(removed, b)[k] == kept_columns(removed, a)[k],
    decreases b - a,
{
    if a < b {
        lemma_kept_prefix(removed, a, b - 1);
    }
}

/// No kept column is a removed one.
pub proof fn lemma_kept_not_removed(removed: spec_fn(int) -> bool, x: int)
    ensures
        forall|k: int| 0 <= k < kept_columns(removed, x).len() ==> !removed(#[trigger] kept_columns(removed, x)[k]),
    decreases x,
{
    if x > 0 {
        lemma_kept_not_removed(removed, x - 1);
        let prev = kept_columns(removed, x - 1);
        assert forall|k: int| 0 <= k < kept_columns(removed, x).len() implies !removed(#[trigger] kept_columns(removed, x)[k]) by {
            if k < prev.len() {
                assert(kept_columns(removed, x)[k] == prev[k]);
            }
        }
    }
}

/// How many of the columns `0..x` are removed.
pub open spec fn removed_count(removed: spec_fn(int) -> bool, x: int) -> int
    decreases x,
{
    if x <= 0 {
        0
    } else {
        removed_count(removed, x - 1) + if removed(x - 1) { 1int } else { 0int }
    }
}

/// Each of the columns `0..x` is either kept or removed.
pub proof fn lemma_kept_count(removed: spec_fn(int) -> bool, x: int)
    requires
        0 <= x,
    ensures
        kept_columns(removed, x).len() + removed_count(removed, x) == x,
    decreases x,
{
    if x > 0 {
        lemma_kept_count(removed, x - 1);
    }
}

/// A kept column `c` is the kept column numbered by how many columns below it
/// are kept.
pub proof fn lemma_kept_index(removed: spec_fn(int) -> bool, c: int, w: int)
    requires
        0 <= c < w,
        !removed(c),
    ensures
        kept_columns(removed, c).len() < kept_columns(removed, w).len(),
        kept_columns(removed, w)[kept_columns(removed, c).len() as int] == c,
{
    assert(kept_columns(removed, c + 1) == kept_columns(removed, c).push(c));
    lemma_kept_prefix(removed, c + 1, w);
    assert(kept_columns(removed, c + 1)[kept_columns(removed, c).len() as int] == c);
}

/// Removing one more column `t` adds one to the count of removed columns below
/// `x` when `t` lies below `x`.
pub proof fn lemma_removed_count_insert(r1: spec_fn(int) -> bool, r2: spec_fn(int) -> bool, t: int, x: int)
    requires
        !r1(t),
        forall|d: int| #[trigger] r2(d) == (r1(d) || d == t),
    ensures
        removed_count(r2, x) == removed_count(r1, x) + if 0 <= t < x { 1int } else { 0int },
    decreases x,
{
    if x > 0 {
        lemma_removed_count_insert(r1, r2, t, x - 1);
        assert(r2(x - 1) == (r1(x - 1) || x - 1 == t));
    }
}

/// The subpixels of the pixels at columns `cols` of row `y`, one pixel after another.
pub open spec fn pixel_run<T>(img: ImageView<T>, y: int, cols: Seq<int>) -> Seq<T>
    decreases cols.len(),
{
    if cols.len() == 0 {
        Seq::empty()
    } else {
        let x = cols.last();
        pixel_run(img, y, cols.drop_last()) + img.data.subrange(img.offset(x, y), img.offset(x, y) + img.channels())
    }
}

pub proof fn lemma_pixel_run<T>(img: ImageView<T>, y: int, cols: Seq<int>)
    requires
        img.wf(),
        0 <= y < img.height,
        forall|i: int| 0 <= i < cols.len() ==> 0 <= #[trigger] cols[i] < img.width,
    ensures
        pixel_run(img, y, cols).len() == cols.len() * img.channels(),
        forall|q: int, ch: int|
            0 <= q < cols.len() && 0 <= ch < img.channels() ==>
                #[trigger] pixel_run(img, y, cols)[q * img.channels() + ch] == img.at(cols[q], y, ch),
    decreases cols.len(),
{
    let c = img.channels() as int;
    let w = img.width as int;
    if cols.len() > 0 {
        let init = cols.drop_last();
        lemma_pixel_run(img, y, init);
        let x = cols.last();
        lemma_plane_index(w, img.height as int, x, y);
        lemma_subpixel_offset(w, c, x, y, 0);
        assert((y * w + x) * c + c <= w * img.height * c) by (nonlinear_arith)
            requires
                y * w + x < w * img.height,
                c >= 1,
        ;
        assert(init.len() * c + c == cols.len() * c) by (nonlinear_arith)
            requires
                init.len() + 1 == cols.len(),
        ;
        assert forall|q: int, ch: int|
            0 <= q < cols.len() && 0 <= ch < c implies
                #[trigger] pixel_run(img, y, cols)[q * c + ch] == img.at(cols[q], y, ch) by {
            if q < init.len() {
                assert(q * c + ch < init.len() * c) by (nonlinear_arith)
                    requires
                        q < init.len(),
                        0 <= ch < c,
                ;
                assert(pixel_run(img, y, init)[q * c + ch] == img.at(init[q], y, ch));
            } else {
                assert(q * c == init.len() * c);
            }
        }
    }
}

/// Appends the pixels `from..to` of row `y` to `out`.
fn copy_pixels<T: Copy>(img: &Image<T>, y: usize, from: usize, to: usize, out: &mut Vec<T>, Ghost(cols): Ghost<Seq<int>>)
    requires
        y < img@.height,
        from <= to <= img@.width,
        old(out)@ == pixel_run(img@, y as int, cols),
    ensures
        final(out)@ == pixel_run(img@, y as int, cols + Seq::new((to - from) as nat, |i: int| from + i)),
{
    let src = img.as_raw();
    let w = img.width() as usize;
    let c = img.layout().channel_count();
    let ghost v = img@;
    let len: usize = src.len();
    let mut x = from;
    let ghost mut done = cols;
    while x < to
        invariant
            v == img@,
            v.wf(),
            src@ == v.data,
            len == v.data.len(),
            w == v.width,
            c == v.channels(),
            y < v.height,
            from <= x <= to <= w,
            done == cols + Seq::new((x - from) as nat, |i: int| from + i),
            out@ == pixel_run(v, y as int, done),
        decreases to - x,
    {
        proof {
            lemma_plane_index(w as int, v.height as int, x as int, y as int);
            lemma_subpixel_offset(w as int, c as int, x as int, y as int, 0);
            assert((y * w + x) * c + c <= w * v.height * c) by (nonlinear_arith)
                requires
                    y * w + x < w * v.height,
                    c >= 1,
            ;
            assert(y * w + x <= (y * w + x) * c) by (nonlinear_arith)
                requires
                    0 <= y * w + x,
                    c >= 1,
            ;
        }
        let off = (y * w + x) * c;
        let ghost before = out@;
        let mut ch: usize = 0;
        while ch < c
            invariant
                src@ == v.data,
                len == v.data.len(),
                off + c <= v.data.len(),
                0 <= ch <= c,
                out@ == before + v.data.subrange(off as int, off + ch),
            decreases c - ch,
        {
            out.push(src[off + ch]);
            ch = ch + 1;
            proof { assert(out@ =~= before + v.data.subrange(off as int, off + ch)); }
        }
        proof {
            let next = done.push(x as int);
            assert(next.drop_last() =~= done);
            assert(next =~= cols + Seq::new((x + 1 - from) as nat, |i: int| from + i));
            assert(off == v.offset(x as int, y as int));
            done = next;
        }
        x = x + 1;
    }
}

/// Column `x` of row `y` is crossed by a seam that starts at one of the columns `ids`.
pub open spec fn crossed(v: SeamsView, ids: Seq<usize>, x: int, y: int) -> bool {
    exists|i: int| 0 <= i < ids.len() && v.position(ids[i] as int, y) == x
}

/// The columns of row `y` crossed by the seams starting at `ids`.
pub open spec fn crossed_in_row(v: SeamsView, ids: Seq<usize>, y: int) -> spec_fn(int) -> bool {
    |x: int| crossed(v, ids, x, y)
}

/// The columns of row `y` (of a `w`-wide image) that removing the `count`
/// lowest-energy seams of `v` leaves, in increasing order.
pub open spec fn kept_after_removal(v: SeamsView, count: int, w: int, y: int) -> Seq<int> {
    kept_columns(crossed_in_row(v, lowest_seams(v.energies, count), y), w)
}

pub proof fn lemma_cancel(a: int, b: int, w: int)
    requires
        w > 0,
        a * w == b * w,
    ensures
        a == b,
{
    assert(a == b) by (nonlinear_arith)
        requires
            w > 0,
            a * w == b * w,
    ;
}

/// Returns the result of removing the `remove_count` lowest-energy seams of
/// `vertical_seams` from `img`: in each row, the pixels those seams cross are
/// left out and the others close up, keeping their order.
#[verifier::spinoff_prover]
#[verifier::rlimit(30)]
pub fn remove_vertical_seams<T: Copy>(img: &Image<T>, vertical_seams: &VerticalSeams, remove_count: usize) -> (out: Image<T>)
    requires
        remove_count < img@.width,
        vertical_seams@.width == img@.width,
        vertical_seams@.height == img@.height,
    ensures
        remove_count == 0 ==> out@ == img@,
        out@.width == img@.width - remove_count,
        out@.height == img@.height,
        out@.layout == img@.layout,
        forall|y: int|
            0 <= y < img@.height ==> (#[trigger] kept_after_removal(vertical_seams@, remove_count as int, img@.width as int, y)).len()
                == out@.width,
        forall|x: int, y: int, ch: int|
            0 <= x < out@.width && 0 <= y < img@.height && 0 <= ch < img@.channels() ==> #[trigger] out@.at(x, y, ch)
                == img@.at(kept_after_removal(vertical_seams@, remove_count as int, img@.width as int, y)[x], y, ch),
{
    proof {
        use_type_invariant(img);
        use_type_invariant(vertical_seams);
    }
    let ghost v = vertical_seams@;
    let ghost iv = img@;
    let ghost k = remove_count as int;
    if remove_count == 0 {
        let out = img.copy();
        proof {
            let lowest = lowest_seams(v.energies, 0);
            assert forall|y: int| 0 <= y < iv.height implies #[trigger] kept_after_removal(v, 0, iv.width as int, y)
                == Seq::new(iv.width, |i: int| i) by {
                assert(lowest.len() == 0) by {
                    let r = Seq::<usize>::empty();
                    assert(is_lowest_selection(v.energies, 0, r));
                    crate::seams::lemma_lowest_selection_unique(v.energies, 0, r, lowest);
                }
                assert forall|c: int| 0 <= c < iv.width implies !#[trigger] crossed_in_row(v, lowest, y)(c) by {}
                lemma_kept_all(crossed_in_row(v, lowest, y), iv.width as int);
            }
        }
        return out;
    }
    let (width, height) = img.dimensions();
    let w = width as usize;
    let h = height as usize;
    let c = img.layout().channel_count();
    let ids = vertical_seams.lowest_energy_seams(remove_count);
    let ghost lowest = ids@;
    proof {
        if h > 0 {
            lemma_cancel(v.height - 1, h - 1, w as int);
        }
    }
    let mut seams: Vec<(usize, usize)> = Vec::new();
    let mut i: usize = 0;
    while i < remove_count
        invariant
            lowest == ids@,
            is_lowest_selection(v.energies, k, lowest),
            lowest.len() == k,
            k == remove_count,
            v.energies.len() == w,
            0 <= i <= k,
            seams@.len() == i,
            forall|a: int| 0 <= a < i ==> #[trigger] seams@[a] == (lowest[a], lowest[a]),
        decreases k - i,
    {
        seams.push((ids[i], ids[i]));
        i = i + 1;
    }
    proof {
        assert forall|q: (usize, usize)|
            #[trigger] seams@.contains(q) <==> exists|i: int|
                0 <= i < k && q == (v.position(lowest[i] as int, 0) as usize, lowest[i]) by {
            if seams@.contains(q) {
                let a = choose|a: int| 0 <= a < seams@.len() && seams@[a] == q;
                assert(q == (v.position(lowest[a] as int, 0) as usize, lowest[a]));
            }
            if exists|i: int| 0 <= i < k && q == (v.position(lowest[i] as int, 0) as usize, lowest[i]) {
                let i = choose|i: int| 0 <= i < k && q == (v.position(lowest[i] as int, 0) as usize, lowest[i]);
                assert(seams@[i] == q);
            }
        }
    }
    let out_w = w - remove_count;
    let ghost ow = out_w as int;
    let ghost ci = c as int;
    let mut out: Vec<T> = Vec::new();
    let mut y: usize = 0;
    while y < h
        invariant
            v == vertical_seams@,
            iv == img@,
            v.wf(),
            iv.wf(),
            w == iv.width,
            h == iv.height,
            c == iv.channels(),
            ci == c,
            w == v.width,
            h > 0 ==> h == v.height,
            k == remove_count,
            0 < k < w,
            ow == out_w,
            out_w == w - k,
            lowest == lowest_seams(v.energies, k),
            is_lowest_selection(v.energies, k, lowest),
            lowest.len() == k,
            0 <= y <= h,
            seams@.len() == k,
            sorted_columns(seams@, w as int),
            y < h ==> forall|q: (usize, usize)|
                #[trigger] seams@.contains(q) <==> exists|i: int|
                    0 <= i < k && q == (v.position(lowest[i] as int, y as int) as usize, lowest[i]),
            out@.len() == y * (ow * ci),
            forall|yy: int| 0 <= yy < y ==> (#[trigger] kept_after_removal(v, k, w as int, yy)).len() == ow,
            forall|x: int, yy: int, ch: int|
                0 <= x < ow && 0 <= yy < y && 0 <= ch < ci ==> #[trigger] out@[(yy * ow + x) * ci + ch]
                    == iv.at(kept_after_removal(v, k, w as int, yy)[x], yy, ch),
        decreases h - y,
    {
        let ghost removed = crossed_in_row(v, lowest, y as int);
        proof {
            lemma_swap_rows_fewer(v.deltas, w as int, v.height - 1, y as int);
            // The listed columns are exactly the crossed ones.
            assert forall|x: int| 0 <= x < w implies (#[trigger] removed(x) <==> exists|j: int| 0 <= j < k && seams@[j].0 == x) by {
                if removed(x) {
                    let i = choose|i: int| 0 <= i < lowest.len() && v.position(lowest[i] as int, y as int) == x;
                    let q = (x as usize, lowest[i]);
                    assert(seams@.contains(q));
                    let j = choose|j: int| 0 <= j < seams@.len() && seams@[j] == q;
                    assert(seams@[j].0 == x);
                }
                if exists|j: int| 0 <= j < k && seams@[j].0 == x {
                    let j = choose|j: int| 0 <= j < k && seams@[j].0 == x;
                    assert(seams@.contains(seams@[j]));
                    let i = choose|i: int|
                        0 <= i < k && seams@[j] == (v.position(lowest[i] as int, y as int) as usize, lowest[i]);
                    lemma_position_range(v.deltas, w as int, lowest[i] as int, y as int);
                    assert(crossed(v, lowest, x, y as int));
                }
            }
        }
        let mut row: Vec<T> = Vec::new();
        let mut src_px: usize = 0;
        let mut j: usize = 0;
        while j < remove_count
            invariant
                iv == img@,
                iv.wf(),
                w == iv.width,
                h == iv.height,
                y < h,
                k == remove_count,
                0 <= j <= k,
                seams@.len() == k,
                sorted_columns(seams@, w as int),
                forall|x: int| 0 <= x < w ==> (#[trigger] removed(x) <==> exists|j: int| 0 <= j < k && seams@[j].0 == x),
                j == 0 ==> src_px == 0,
                j > 0 ==> src_px == seams@[j - 1].0 + 1,
                src_px <= w,
                kept_columns(removed, src_px as int).len() == src_px - j,
                row@ == pixel_run(iv, y as int, kept_columns(removed, src_px as int)),
            decreases k - j,
        {
            let sx = seams[j].0;
            proof {
                if j > 0 {
                    assert(seams@[j - 1].0 < seams@[j as int].0);
                }
                assert forall|x: int| src_px <= x < sx implies !#[trigger] removed(x) by {
                    if removed(x) {
                        let j2 = choose|j2: int| 0 <= j2 < k && seams@[j2].0 == x;
                        if j2 < j {
                            if j2 < j - 1 {
                                assert(seams@[j2].0 < seams@[j - 1].0);
                            }
                        } else if j2 > j {
                            assert(seams@[j as int].0 < seams@[j2].0);
                        }
                    }
                }
                lemma_kept_span(removed, src_px as int, sx as int);
            }
            copy_pixels(img, y, src_px, sx, &mut row, Ghost(kept_columns(removed, src_px as int)));
            proof {
                assert(removed(sx as int));
                assert(kept_columns(removed, sx + 1) == kept_columns(removed, sx as int));
            }
            src_px = sx + 1;
            j = j + 1;
        }
        proof {
            assert forall|x: int| src_px <= x < w implies !#[trigger] removed(x) by {
                if removed(x) {
                    let j2 = choose|j2: int| 0 <= j2 < k && seams@[j2].0 == x;
                    if j2 < k - 1 {
                        assert(seams@[j2].0 < seams@[k - 1].0);
                    }
                }
            }
            lemma_kept_span(removed, src_px as int, w as int);
        }
        copy_pixels(img, y, src_px, w, &mut row, Ghost(kept_columns(removed, src_px as int)));
        let ghost kept = kept_columns(removed, w as int);
        proof {
            assert(kept == kept_after_removal(v, k, w as int, y as int));
            assert(kept.len() == ow);
            lemma_kept_range(removed, w as int);
            lemma_pixel_run(iv, y as int, kept);
        }
        let ghost before = out@;
        let ghost rowv = row@;
        out.append(&mut row);
        proof {
            assert forall|x: int, yy: int, ch: int|
                0 <= x < ow && 0 <= yy < y + 1 && 0 <= ch < ci implies #[trigger] out@[(yy * ow + x) * ci + ch]
                    == iv.at(kept_after_removal(v, k, w as int, yy)[x], yy, ch) by {
                lemma_subpixel_offset(ow, ci, x, yy, ch);
                if yy < y {
                    crate::image::lemma_row_offset(ow * ci, y as int, yy);
                    assert(before[(yy * ow + x) * ci + ch] == iv.at(kept_after_removal(v, k, w as int, yy)[x], yy, ch));
                } else {
                    assert(out@[(yy * ow + x) * ci + ch] == rowv[x * ci + ch]);
                }
            }
            lemma_subpixel_offset(ow, ci, 0, y as int, 0);
        }
        if y + 1 < h {
            let ghost old_seams = seams@;
            vertical_seams.advance_seams(&mut seams, y);
            proof {
                assert forall|q: (usize, usize)|
                    #[trigger] seams@.contains(q) <==> exists|i: int|
                        0 <= i < k && q == (v.position(lowest[i] as int, y + 1) as usize, lowest[i]) by {
                    if seams@.contains(q) {
                        let j = choose|j: int|
                            0 <= j < old_seams.len() && q.1 == old_seams[j].1
                                && q.0 == step_column(v, y as int, old_seams[j].0 as int);
                        assert(old_seams.contains(old_seams[j]));
                        let i = choose|i: int|
                            0 <= i < k && old_seams[j] == (v.position(lowest[i] as int, y as int) as usize, lowest[i]);
                        lemma_position_range(v.deltas, w as int, lowest[i] as int, y as int);
                        lemma_swap_rows_fewer(v.deltas, w as int, v.height - 1, y + 1);
                        lemma_position_range(v.deltas, w as int, lowest[i] as int, y + 1);
                        assert(q == (v.position(lowest[i] as int, y + 1) as usize, lowest[i]));
                    }
                    if exists|i: int| 0 <= i < k && q == (v.position(lowest[i] as int, y + 1) as usize, lowest[i]) {
                        let i = choose|i: int| 0 <= i < k && q == (v.position(lowest[i] as int, y + 1) as usize, lowest[i]);
                        let p = (v.position(lowest[i] as int, y as int) as usize, lowest[i]);
                        assert(old_seams.contains(p));
                        let j = choose|j: int| 0 <= j < old_seams.len() && old_seams[j] == p;
                        lemma_position_range(v.deltas, w as int, lowest[i] as int, y as int);
                        lemma_swap_rows_fewer(v.deltas, w as int, v.height - 1, y + 1);
                        lemma_position_range(v.deltas, w as int, lowest[i] as int, y + 1);
                        assert(q.0 == step_column(v, y as int, old_seams[j].0 as int));
                    }
                }
            }
        }
        y = y + 1;
    }
    proof {
        assert(h * (ow * ci) == ow * h * ci) by (nonlinear_arith);
    }
    Image::from_parts(out_w as u32, height, img.layout(), out)
}

/// The columns a row keeps when the pixel at column `xs` is cut out of a
/// `w`-wide row.
pub open spec fn kept_around(xs: int, w: int) -> Seq<int> {
    Seq::new((w - 1) as nat, |i: int| if i < xs { i } else { i + 1 })
}

/// Removing the single lowest-energy seam with [`remove_vertical_seams`] cuts
/// out, in every row, the same pixel as removing that seam on its own with
/// [`remove_vertical_seam`]: the columns kept are the same.
pub proof fn lemma_remove_one_seam(v: SeamsView, y: int)
    requires
        v.wf(),
        1 <= v.width,
        0 <= y < v.height,
    ensures
        kept_after_removal(v, 1, v.width as int, y)
            == kept_around(v.path(lowest_seams(v.energies, 1)[0] as int)[v.height - 1 - y] as int, v.width as int),
{
    let w = v.width as int;
    let h = v.height as int;
    crate::seams::lemma_lowest_is_minimal(v.energies, 0);
    let ids = lowest_seams(v.energies, 1);
    let s = ids[0] as int;
    lemma_swap_rows_fewer(v.deltas, w, h - 1, y);
    lemma_position_range(v.deltas, w, s, y);
    let p = v.position(s, y);
    assert(v.path(s)[h - 1 - y] as int == p);
    let removed = crossed_in_row(v, ids, y);
    assert forall|x: int| #[trigger] removed(x) == (x == p) by {
        if x == p {
            assert(v.position(ids[0] as int, y) == x);
        }
    }
    lemma_kept_span(removed, 0, p);
    lemma_kept_span(removed, p + 1, w);
    assert(kept_columns(removed, p + 1) == kept_columns(removed, p));
    assert(kept_columns(removed, w) =~= kept_around(p, w));
}

/// Returns the result of removing `seam` from `image`: in row `y` the pixel at
/// column `seam.0[height - 1 - y]` is cut out and the pixels to its right move
/// one column left.
pub fn remove_vertical_seam<T: Copy>(image: &Image<T>, seam: &VerticalSeam) -> (out: Image<T>)
    requires
        seam.0@.len() == image@.height,
        image@.width >= 1,
        forall|i: int| 0 <= i < seam.0@.len() ==> #[trigger] seam.0@[i] < image@.width,
    ensures
        out@.width == image@.width - 1,
        out@.height == image@.height,
        out@.layout == image@.layout,
        forall|x: int, y: int, ch: int|
            0 <= x < out@.width && 0 <= y < image@.height && 0 <= ch < image@.channels() ==> #[trigger] out@.at(x, y, ch)
                == image@.at(kept_around(seam.0@[image@.height - 1 - y] as int, image@.width as int)[x], y, ch),
{
    proof { use_type_invariant(image); }
    let ghost iv = image@;
    let (width, height) = image.dimensions();
    let w = width as usize;
    let h = height as usize;
    let c = image.layout().channel_count();
    let out_w = w - 1;
    let ghost ow = out_w as int;
    let ghost ci = c as int;
    let mut out: Vec<T> = Vec::new();
    let mut y: usize = 0;
    while y < h
        invariant
            iv == image@,
            iv.wf(),
            w == iv.width,
            h == iv.height,
            c == iv.channels(),
            ci == c,
            ow == out_w,
            out_w == w - 1,
            seam.0@.len() == h,
            forall|i: int| 0 <= i < seam.0@.len() ==> #[trigger] seam.0@[i] < w,
            0 <= y <= h,
            out@.len() == y * (ow * ci),
            forall|x: int, yy: int, ch: int|
                0 <= x < ow && 0 <= yy < y && 0 <= ch < ci ==> #[trigger] out@[(yy * ow + x) * ci + ch]
                    == iv.at(kept_around(seam.0@[h - 1 - yy] as int, w as int)[x], yy, ch),
        decreases h - y,
    {
        let x_seam = seam.0[h - y - 1] as usize;
        let ghost cols = kept_around(x_seam as int, w as int);
        let mut row: Vec<T> = Vec::new();
        proof {
            assert(Seq::<int>::empty() + Seq::new(x_seam as nat, |i: int| 0 + i) =~= cols.subrange(0, x_seam as int));
        }
        copy_pixels(image, y, 0, x_seam, &mut row, Ghost(Seq::<int>::empty()));
        proof {
            assert(cols.subrange(0, x_seam as int) + Seq::new((w - (x_seam + 1)) as nat, |i: int| x_seam + 1 + i) =~= cols);
        }
        copy_pixels(image, y, x_seam + 1, w, &mut row, Ghost(cols.subrange(0, x_seam as int)));
        proof {
            lemma_pixel_run(iv, y as int, cols);
        }
        let ghost before = out@;
        let ghost rowv = row@;
        out.append(&mut row);
        proof {
            assert forall|x: int, yy: int, ch: int|
                0 <= x < ow && 0 <= yy < y + 1 && 0 <= ch < ci implies #[trigger] out@[(yy * ow + x) * ci + ch]
                    == iv.at(kept_around(seam.0@[h - 1 - yy] as int, w as int)[x], yy, ch) by {
                lemma_subpixel_offset(ow, ci, x, yy, ch);
                if yy < y {
                    crate::image::lemma_row_offset(ow * ci, y as int, yy);
                    assert(before[(yy * ow + x) * ci + ch] == iv.at(kept_around(seam.0@[h - 1 - yy] as int, w as int)[x], yy, ch));
                } else {
                    assert(out@[(yy * ow + x) * ci + ch] == rowv[x * ci + ch]);
                }
            }
            assert(0 <= ow * ci) by (nonlinear_arith)
                requires
                    0 <= ow,
                    0 <= ci,
            ;
            crate::image::lemma_row_offset(ow * ci, y + 1, y as int);
        }
        y = y + 1;
    }
    proof {
        assert(h * (ow * ci) == ow * h * ci) by (nonlinear_arith);
    }
    Image::from_parts(out_w as u32, height, image.layout(), out)
}

/// Reduces the width of an image to `target_width` by seam carving: finds the
/// seams of `img` and removes the `width - target_width` lowest-energy ones in
/// a single pass. The image is returned unchanged when it already has the
/// target width.
pub fn shrink_width(img: &Image<u8>, target_width: u32) -> (out: Image<u8>)
    requires
        target_width != img@.width ==> {
            &&& target_width <= img@.width
            &&& target_width > 0
            &&& img@.height > 0
        },
    ensures
        target_width == img@.width ==> out@ == img@,
        out@.width == target_width,
        out@.height == img@.height,
        out@.layout == img@.layout,
        forall|x: int, y: int, ch: int|
            0 <= x < target_width && 0 <= y < img@.height && 0 <= ch < img@.channels() ==> #[trigger] out@.at(x, y, ch)
                == img@.at(kept_after_removal(image_seams(img@), img@.width - target_width, img@.width as int, y)[x], y, ch),
{
    proof { use_type_invariant(img); }
    let width = img.width();
    if width == target_width {
        let out = img.copy();
        proof {
            let v = image_seams(img@);
            let lowest = lowest_seams(v.energies, 0);
            assert forall|y: int| 0 <= y < img@.height implies #[trigger] kept_after_removal(v, 0, img@.width as int, y)
                == Seq::new(img@.width, |i: int| i) by {
                assert(lowest.len() == 0) by {
                    let r = Seq::<usize>::empty();
                    assert(is_lowest_selection(v.energies, 0, r));
                    crate::seams::lemma_lowest_selection_unique(v.energies, 0, r, lowest);
                }
                assert forall|c: int| 0 <= c < img@.width implies !#[trigger] crossed_in_row(v, lowest, y)(c) by {}
                lemma_kept_all(crossed_in_row(v, lowest, y), img@.width as int);
            }
        }
        return out;
    }
    let vertical_seams = find_vertical_seams(img);
    proof {
        use_type_invariant(&vertical_seams);
    }
    let remove_count = (width - target_width) as usize;
    remove_vertical_seams(img, &vertical_seams, remove_count)
}

} // verus!
